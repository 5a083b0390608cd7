//! Observe the decisions and derivations made during dependency resolution.
//!
//! These events expose the actual path taken by the solver. This makes it possible to explain why
//! a version was skipped in a successful resolution, where an unsatisfiable derivation tree from a
//! separate counterfactual solve would answer a different question.
//!
//! [`SolverEvent::VersionChoice`] is a proposal made by the dependency provider, while
//! [`SolverEvent::Decision`] means that proposal was committed to the partial solution. A committed
//! decision may later be discarded by [`SolverEvent::Backtrack`]. For a version that was never
//! proposed, compare `previous` and `current` of [`SolverEvent::Derivation`] with
//! [`Term::contains`](crate::Term::contains) to find the propagation step that excluded it.

use vstd::prelude::*;

use crate::package::Package;
use crate::report::{DerivationTree, External};
use crate::term::Term;
use crate::version_set::VersionSet;

verus! {

/// How a probe for a better solution ended.
#[derive(Debug, Clone, Copy, PartialEq, Eq)]
pub enum MaximalityProbeResult {
    /// A better solution was found.
    Improved,
    /// There is no better solution.
    NoImprovement,
    /// The probe failed with an error.
    Error,
}

/// A structured event emitted while resolving dependencies.
///
/// Events describe the path taken by a specific solver run. They are not a proof that an
/// alternative solution does not exist.
#[derive(Debug)]
#[non_exhaustive]
pub enum SolverEvent<'a, P: Package, VS: VersionSet, M> {
    /// The solver selected a package for its next version decision.
    PackageChoice {
        /// Package selected for the next decision.
        package: &'a P,
        /// Versions currently allowed for the package.
        allowed: &'a VS,
    },
    /// The dependency provider selected a version for a package.
    VersionChoice {
        /// Package for which a version was selected.
        package: &'a P,
        /// Version selected by the dependency provider.
        version: &'a VS::V,
        /// Versions allowed when the selection was made.
        allowed: &'a VS,
    },
    /// The solver committed a package version to the partial solution.
    Decision {
        /// Package whose version was committed.
        package: &'a P,
        /// Version committed to the partial solution.
        version: &'a VS::V,
        /// Decision level assigned to the package version.
        decision_level: u32,
    },
    /// The dependency provider found no version in the currently allowed set.
    NoVersion {
        /// Package for which no version was found.
        package: &'a P,
        /// Versions allowed when the lookup failed.
        allowed: &'a VS,
    },
    /// Unit propagation narrowed the versions allowed for a package.
    Derivation {
        /// Package whose allowed versions changed.
        package: &'a P,
        /// Allowed term before applying the derivation, if the package was already known.
        previous: Option<&'a Term<VS>>,
        /// Allowed term after applying the derivation.
        current: &'a Term<VS>,
        /// Incompatibility tree that caused the derivation.
        cause: &'a DerivationTree<P, VS, M>,
    },
    /// Unit propagation found an incompatibility satisfied by the partial solution.
    Conflict {
        /// Incompatibility tree that triggered conflict resolution.
        cause: &'a DerivationTree<P, VS, M>,
    },
    /// Conflict resolution discarded decisions and learned an incompatibility.
    Backtrack {
        /// Decision level before backtracking.
        from_level: u32,
        /// Decision level retained after backtracking.
        to_level: u32,
        /// Learned incompatibility that caused the backtrack.
        cause: &'a DerivationTree<P, VS, M>,
    },
    /// The solver found a complete solution.
    Solution,
    /// An enumeration starts a run of the solver.
    EnumerationRunStarted {
        /// Number of the run, counted from one.
        run: u64,
    },
    /// An enumeration has finished a run of the solver.
    EnumerationRunFinished {
        /// Number of the run, counted from one.
        run: u64,
    },
    /// The solver looks for a solution with a higher version of the package.
    MaximalityProbeStarted {
        /// Package whose version is to be raised.
        package: &'a P,
    },
    /// The search for a higher version of the package has ended.
    MaximalityProbeFinished {
        /// Package whose version was to be raised.
        package: &'a P,
        /// Outcome of the search.
        result: MaximalityProbeResult,
    },
    /// The solver looks for a solution that gives up the preference for the package.
    PreferenceProbeStarted {
        /// Package whose preference is given up.
        package: &'a P,
    },
    /// The search without the preference for the package has ended.
    PreferenceProbeFinished {
        /// Package whose preference was given up.
        package: &'a P,
        /// Outcome of the search.
        result: MaximalityProbeResult,
    },
}

/// What an observer has been told of a cause: which selections it rules out, which packages occur in
/// it, and of which packages its conclusion speaks.
#[verifier::reject_recursive_types(K)]
#[verifier::reject_recursive_types(V)]
pub struct Cause<K, V> {
    pub refuted: Set<Map<K, V>>,
    pub packages: Set<K>,
    pub named: Set<K>,
}

/// What an observer has been told.
#[verifier::reject_recursive_types(K)]
#[verifier::reject_recursive_types(V)]
pub enum Observed<K, V> {
    PackageChoice(K, Set<V>),
    VersionChoice(K, V, Set<V>),
    Decision(K, V, u32),
    NoVersion(K, Set<V>),
    Derivation(K, Option<Set<Option<V>>>, Set<Option<V>>, Cause<K, V>),
    Conflict(Cause<K, V>),
    Backtrack(u32, u32, Cause<K, V>),
    Solution,
    EnumerationRunStarted(u64),
    EnumerationRunFinished(u64),
    MaximalityProbeStarted(K),
    MaximalityProbeFinished(K, MaximalityProbeResult),
    PreferenceProbeStarted(K),
    PreferenceProbeFinished(K, MaximalityProbeResult),
}

impl<'a, P: Package, VS: VersionSet, M> SolverEvent<'a, P, VS, M> {
    /// What the event tells an observer.
    pub open spec fn observed(self) -> Observed<P::V, VS::V> {
        match self {
            SolverEvent::PackageChoice { package, allowed } => Observed::PackageChoice(
                package@,
                allowed@,
            ),
            SolverEvent::VersionChoice { package, version, allowed } => Observed::VersionChoice(
                package@,
                *version,
                allowed@,
            ),
            SolverEvent::Decision { package, version, decision_level } => Observed::Decision(
                package@,
                *version,
                decision_level,
            ),
            SolverEvent::NoVersion { package, allowed } => Observed::NoVersion(package@, allowed@),
            SolverEvent::Derivation { package, previous, current, cause } => Observed::Derivation(
                package@,
                match previous {
                    Some(term) => Some(term@),
                    None => None,
                },
                current@,
                cause.told(),
            ),
            SolverEvent::Conflict { cause } => Observed::Conflict(cause.told()),
            SolverEvent::Backtrack { from_level, to_level, cause } => Observed::Backtrack(
                from_level,
                to_level,
                cause.told(),
            ),
            SolverEvent::Solution => Observed::Solution,
            SolverEvent::EnumerationRunStarted { run } => Observed::EnumerationRunStarted(run),
            SolverEvent::EnumerationRunFinished { run } => Observed::EnumerationRunFinished(run),
            SolverEvent::MaximalityProbeStarted { package } => Observed::MaximalityProbeStarted(
                package@,
            ),
            SolverEvent::MaximalityProbeFinished { package, result } =>
                Observed::MaximalityProbeFinished(package@, result),
            SolverEvent::PreferenceProbeStarted { package } => Observed::PreferenceProbeStarted(
                package@,
            ),
            SolverEvent::PreferenceProbeFinished { package, result } =>
                Observed::PreferenceProbeFinished(package@, result),
        }
    }
}

/// Receives structured events from a solver run.
///
/// Implementations that only need package and version choices can return `false` from
/// [`captures_derivation_trees`](SolverObserver::captures_derivation_trees) to be spared the events
/// which hold derivation trees.
pub trait SolverObserver<P: Package, VS: VersionSet, M> {
    /// What the observer has been told so far.
    open spec fn log(&self) -> Seq<Observed<P::V, VS::V>> {
        arbitrary()
    }

    /// Receive one event from the solver.
    fn on_event(&mut self, event: SolverEvent<'_, P, VS, M>)
        ensures
            final(self).log() == old(self).log().push(event.observed()),
    ;

    /// Whether the solver should emit events containing derivation trees.
    fn captures_derivation_trees(&self) -> (r: bool)
        default_ensures
            r,
    {
        true
    }
}

/// An observer which ignores every event.
#[verifier::reject_recursive_types(P)]
#[verifier::reject_recursive_types(VS)]
pub struct NoopSolverObserver<P: Package, VS: VersionSet> {
    told: Ghost<Seq<Observed<P::V, VS::V>>>,
}

impl<P: Package, VS: VersionSet> NoopSolverObserver<P, VS> {
    /// A new observer.
    pub fn new() -> (r: Self)
        ensures
            r.told() == Seq::<Observed<P::V, VS::V>>::empty(),
    {
        NoopSolverObserver { told: Ghost(Seq::empty()) }
    }

    /// What the observer has been told so far.
    pub closed spec fn told(self) -> Seq<Observed<P::V, VS::V>> {
        self.told@
    }
}

impl<P: Package, VS: VersionSet, M> SolverObserver<P, VS, M> for NoopSolverObserver<P, VS> {
    open spec fn log(&self) -> Seq<Observed<P::V, VS::V>> {
        self.told()
    }

    fn on_event(&mut self, event: SolverEvent<'_, P, VS, M>) {
        self.told = Ghost(self.told@.push(event.observed()));
    }

    fn captures_derivation_trees(&self) -> bool
        returns
            false,
    {
        false
    }
}

impl<P: Package, VS: VersionSet, M> DerivationTree<P, VS, M> {
    /// What an observer is told of the tree.
    pub open spec fn told(self) -> Cause<P::V, VS::V> {
        Cause {
            refuted: self.refuted(),
            packages: Set::new(|k: P::V| self.involves(k)),
            named: Set::new(|k: P::V| self.names(k)),
        }
    }
}

/// The event belongs to the path of one solver run, and says what such an event can say.
pub open spec fn on_path<K, V>(o: Observed<K, V>) -> bool {
    match o {
        Observed::PackageChoice(_, _) => true,
        Observed::VersionChoice(_, v, allowed) => allowed.contains(v),
        Observed::Decision(_, _, decision_level) => decision_level >= 1,
        Observed::NoVersion(_, _) => true,
        Observed::Derivation(_, previous, current, _) => {
            &&& current != Set::<Option<V>>::empty()
            &&& current != Set::<Option<V>>::full()
            &&& previous matches Some(wider) ==> current.subset_of(wider) && current != wider
        },
        Observed::Conflict(_) => true,
        Observed::Backtrack(from_level, to_level, _) => to_level < from_level || (to_level
            == from_level && from_level == u32::MAX),
        _ => false,
    }
}

/// The event holds a derivation tree.
pub open spec fn holds_tree<K, V>(o: Observed<K, V>) -> bool {
    o is Derivation || o is Conflict || o is Backtrack
}

/// What is told of the derivation tree that the event holds.
pub open spec fn cause_of<K, V>(o: Observed<K, V>) -> Cause<K, V> {
    match o {
        Observed::Derivation(_, _, _, cause) => cause,
        Observed::Conflict(cause) => cause,
        Observed::Backtrack(_, _, cause) => cause,
        _ => arbitrary(),
    }
}

/// What is told is told of a sound tree that rests on facts as described.
pub open spec fn is_told_of_tree<P: Package, VS: VersionSet, M>(
    cause: Cause<P::V, VS::V>,
    fact: spec_fn(External<P, VS, M>) -> bool,
) -> bool {
    exists|tree: DerivationTree<P, VS, M>| #[trigger]
        tree.rests_on(fact) && tree.is_sound() && cause == tree.told()
}

/// Every derivation tree that the new events hold is sound and rests on facts as described.
pub open spec fn causes_rest_on<P: Package, VS: VersionSet, M>(
    before: Seq<Observed<P::V, VS::V>>,
    after: Seq<Observed<P::V, VS::V>>,
    fact: spec_fn(External<P, VS, M>) -> bool,
) -> bool {
    forall|i: int|
        before.len() <= i < after.len() && holds_tree(#[trigger] after[i]) ==> is_told_of_tree(
            cause_of(after[i]),
            fact,
        )
}

/// The cause is a single fact as described.
pub open spec fn is_single_fact<P: Package, VS: VersionSet, M>(
    cause: Cause<P::V, VS::V>,
    fact: spec_fn(External<P, VS, M>) -> bool,
) -> bool {
    exists|e: External<P, VS, M>| #[trigger]
        fact(e) && cause == DerivationTree::<P, VS, M>::External(e).told()
}

/// The observer was told of the cause where the solver went back.
pub open spec fn is_told_back<K, V>(
    start: int,
    end: int,
    log: Seq<Observed<K, V>>,
    cause: Cause<K, V>,
) -> bool {
    exists|j: int| start <= j < end && (#[trigger] log[j]) is Backtrack && cause_of(log[j]) == cause
}

/// The cause of every derivation and of every conflict is a single fact as described, or one for
/// which the solver went back before.
pub open spec fn causes_are_sourced<P: Package, VS: VersionSet, M>(
    before: Seq<Observed<P::V, VS::V>>,
    after: Seq<Observed<P::V, VS::V>>,
    fact: spec_fn(External<P, VS, M>) -> bool,
) -> bool {
    forall|i: int|
        before.len() <= i < after.len() && ((#[trigger] after[i]) is Derivation
            || after[i] is Conflict) ==> is_single_fact(cause_of(after[i]), fact) || is_told_back(
            before.len() as int,
            i,
            after,
            cause_of(after[i]),
        )
}

/// What was told before the end of a part of the log is told in the whole log.
pub proof fn lemma_told_back<K, V>(
    start: int,
    end: int,
    log: Seq<Observed<K, V>>,
    first: int,
    last: int,
    longer: Seq<Observed<K, V>>,
    cause: Cause<K, V>,
)
    requires
        is_told_back(start, end, log, cause),
        0 <= first <= start,
        end <= log.len(),
        end <= last,
        log.is_prefix_of(longer),
    ensures
        is_told_back(first, last, longer, cause),
{
    let j = choose|j: int|
        start <= j < end && (#[trigger] log[j]) is Backtrack && cause_of(log[j]) == cause;
    assert(log[j] == longer.subrange(0, log.len() as int)[j]);
    assert(longer[j] == log[j]);
}

pub proof fn lemma_causes_push<P: Package, VS: VersionSet, M>(
    before: Seq<Observed<P::V, VS::V>>,
    after: Seq<Observed<P::V, VS::V>>,
    o: Observed<P::V, VS::V>,
    fact: spec_fn(External<P, VS, M>) -> bool,
)
    requires
        causes_rest_on(before, after, fact),
        holds_tree(o) ==> is_told_of_tree(cause_of(o), fact),
    ensures
        causes_rest_on(before, after.push(o), fact),
{
    let longer = after.push(o);
    assert forall|i: int|
        before.len() <= i < longer.len() && holds_tree(#[trigger] longer[i]) implies
        is_told_of_tree(cause_of(longer[i]), fact) by {
        if i < after.len() {
            assert(longer[i] == after[i]);
        }
    }
}

pub proof fn lemma_causes_chain<P: Package, VS: VersionSet, M>(
    a: Seq<Observed<P::V, VS::V>>,
    b: Seq<Observed<P::V, VS::V>>,
    c: Seq<Observed<P::V, VS::V>>,
    fact: spec_fn(External<P, VS, M>) -> bool,
)
    requires
        causes_rest_on(a, b, fact),
        causes_rest_on(b, c, fact),
        b.is_prefix_of(c),
    ensures
        causes_rest_on(a, c, fact),
{
    assert forall|i: int|
        a.len() <= i < c.len() && holds_tree(#[trigger] c[i]) implies is_told_of_tree(
        cause_of(c[i]),
        fact,
    ) by {
        if i < b.len() {
            assert(b[i] == c.subrange(0, b.len() as int)[i]);
            assert(b[i] == c[i]);
        }
    }
}

/// The event marks the beginning or the end of a run or a probe, or a solution.
pub open spec fn is_boundary<K, V>(o: Observed<K, V>) -> bool {
    match o {
        Observed::Solution => true,
        Observed::EnumerationRunStarted(_) => true,
        Observed::EnumerationRunFinished(_) => true,
        Observed::MaximalityProbeStarted(_) => true,
        Observed::MaximalityProbeFinished(_, _) => true,
        Observed::PreferenceProbeStarted(_) => true,
        Observed::PreferenceProbeFinished(_, _) => true,
        _ => false,
    }
}

/// The event at the place comes directly after the one that it belongs to, among those from `start`
/// on: what becomes of the choice of a package after that choice, and a decision after the choice of
/// its version. Nothing else on the path comes directly after the choice of a package.
pub open spec fn well_placed<K, V>(start: int, log: Seq<Observed<K, V>>, i: int) -> bool {
    &&& match log[i] {
        Observed::VersionChoice(k, _, allowed) => i > start && log[i - 1]
            == Observed::PackageChoice(k, allowed),
        Observed::NoVersion(k, allowed) => i > start && log[i - 1] == Observed::PackageChoice(
            k,
            allowed,
        ),
        Observed::Decision(k, v, _) => i > start && log[i - 1] is VersionChoice
            && log[i - 1]->VersionChoice_0 == k && log[i - 1]->VersionChoice_1 == v,
        _ => true,
    }
    &&& i > start && log[i - 1] is PackageChoice ==> log[i] is VersionChoice || log[i] is NoVersion
        || is_boundary(log[i])
}

/// An observer that has been told so much may ask for derivation trees.
pub open spec fn may_ask<P: Package, VS: VersionSet, M, O: SolverObserver<P, VS, M>>(
    log: Seq<Observed<P::V, VS::V>>,
) -> bool {
    exists|o: O|
        #![trigger o.log()]
        o.log() == log && call_ensures(O::captures_derivation_trees, (&o,), true)
}

/// An observer of this kind never declines derivation trees.
pub open spec fn always_asks<P: Package, VS: VersionSet, M, O: SolverObserver<P, VS, M>>() -> bool {
    forall|o: O| !#[trigger] call_ensures(O::captures_derivation_trees, (&o,), false)
}

/// The log has grown by events that are each in their place, and by derivation trees only where the
/// observer asked for them.
pub open spec fn records<P: Package, VS: VersionSet, M, O: SolverObserver<P, VS, M>>(
    before: Seq<Observed<P::V, VS::V>>,
    after: Seq<Observed<P::V, VS::V>>,
) -> bool {
    &&& before.is_prefix_of(after)
    &&& forall|i: int|
        before.len() <= i < after.len() ==> {
            &&& well_placed(before.len() as int, after, i)
            &&& on_path(#[trigger] after[i]) || is_boundary(after[i])
            &&& holds_tree(after[i]) ==> may_ask::<P, VS, M, O>(after.take(i))
        }
}

/// The log has grown by events on the path of one solver run.
pub open spec fn follows_path<P: Package, VS: VersionSet, M, O: SolverObserver<P, VS, M>>(
    before: Seq<Observed<P::V, VS::V>>,
    after: Seq<Observed<P::V, VS::V>>,
) -> bool {
    &&& records::<P, VS, M, O>(before, after)
    &&& forall|i: int| before.len() <= i < after.len() ==> on_path(#[trigger] after[i])
}

/// The last event, if any is new, is not the choice of a package.
pub open spec fn at_rest<K, V>(before: Seq<Observed<K, V>>, after: Seq<Observed<K, V>>) -> bool {
    after.len() > before.len() ==> !(after.last() is PackageChoice)
}

/// Whoever never asks for derivation trees is told of none.
pub proof fn no_tree_is_sent_unasked<P: Package, VS: VersionSet, M, O: SolverObserver<P, VS, M>>(
    before: Seq<Observed<P::V, VS::V>>,
    after: Seq<Observed<P::V, VS::V>>,
)
    requires
        records::<P, VS, M, O>(before, after),
        forall|o: O| !#[trigger] call_ensures(O::captures_derivation_trees, (&o,), true),
    ensures
        forall|i: int| before.len() <= i < after.len() ==> !holds_tree(#[trigger] after[i]),
{
    assert forall|i: int| before.len() <= i < after.len() implies !holds_tree(
        #[trigger] after[i],
    ) by {
        if holds_tree(after[i]) {
            let o = choose|o: O|
                #![trigger o.log()]
                o.log() == after.take(i) && call_ensures(
                    O::captures_derivation_trees,
                    (&o,),
                    true,
                );
            assert(call_ensures(O::captures_derivation_trees, (&o,), true));
        }
    }
}

pub proof fn lemma_records_push<P: Package, VS: VersionSet, M, O: SolverObserver<P, VS, M>>(
    before: Seq<Observed<P::V, VS::V>>,
    after: Seq<Observed<P::V, VS::V>>,
    o: Observed<P::V, VS::V>,
)
    requires
        records::<P, VS, M, O>(before, after),
        on_path(o) || is_boundary(o),
        well_placed(before.len() as int, after.push(o), after.len() as int),
        holds_tree(o) ==> may_ask::<P, VS, M, O>(after),
    ensures
        records::<P, VS, M, O>(before, after.push(o)),
        follows_path::<P, VS, M, O>(before, after) && on_path(o) ==> follows_path::<P, VS, M, O>(
            before,
            after.push(o),
        ),
{
    let longer = after.push(o);
    assert forall|i: int| 0 <= i < before.len() implies before[i] == longer[i] by {
        assert(before[i] == after[i]);
    }
    assert(before =~= longer.subrange(0, before.len() as int));
    assert forall|i: int| before.len() <= i < longer.len() implies {
        &&& well_placed(before.len() as int, longer, i)
        &&& on_path(#[trigger] longer[i]) || is_boundary(longer[i])
        &&& holds_tree(longer[i]) ==> may_ask::<P, VS, M, O>(longer.take(i))
    } by {
        if i < after.len() {
            assert(longer[i] == after[i]);
            assert(longer.take(i) =~= after.take(i));
        } else {
            assert(longer.take(i) =~= after);
        }
    }
    if follows_path::<P, VS, M, O>(before, after) && on_path(o) {
        assert forall|i: int| before.len() <= i < longer.len() implies on_path(
            #[trigger] longer[i],
        ) by {
            if i < after.len() {
                assert(longer[i] == after[i]);
            }
        }
    }
}

pub proof fn lemma_records_chain<P: Package, VS: VersionSet, M, O: SolverObserver<P, VS, M>>(
    a: Seq<Observed<P::V, VS::V>>,
    b: Seq<Observed<P::V, VS::V>>,
    c: Seq<Observed<P::V, VS::V>>,
)
    requires
        records::<P, VS, M, O>(a, b),
        records::<P, VS, M, O>(b, c),
        at_rest(a, b),
    ensures
        records::<P, VS, M, O>(a, c),
        follows_path::<P, VS, M, O>(a, b) && follows_path::<P, VS, M, O>(b, c) ==> follows_path::<
            P,
            VS,
            M,
            O,
        >(a, c),
        at_rest(b, c) ==> at_rest(a, c),
{
    lemma_prefix_chain(a, b, c);
    assert forall|i: int| a.len() <= i < c.len() implies {
        &&& well_placed(a.len() as int, c, i)
        &&& on_path(#[trigger] c[i]) || is_boundary(c[i])
        &&& holds_tree(c[i]) ==> may_ask::<P, VS, M, O>(c.take(i))
    } by {
        if i < b.len() {
            assert(b[i] == c[i]);
            assert(i > 0 ==> b[i - 1] == c[i - 1]);
            assert(c.take(i) =~= b.take(i));
        } else if i == b.len() && i > a.len() {
            assert(c[i - 1] == b.last());
        }
    }
    if follows_path::<P, VS, M, O>(a, b) && follows_path::<P, VS, M, O>(b, c) {
        assert forall|i: int| a.len() <= i < c.len() implies on_path(#[trigger] c[i]) by {
            if i < b.len() {
                assert(b[i] == c[i]);
            }
        }
    }
    if at_rest(b, c) && c.len() == b.len() {
        assert(c =~= b);
    }
}

pub proof fn lemma_prefix_chain<T>(a: Seq<T>, b: Seq<T>, c: Seq<T>)
    requires
        a.is_prefix_of(b),
        b.is_prefix_of(c),
    ensures
        a.is_prefix_of(c),
        forall|i: int| 0 <= i < b.len() ==> b[i] == c[i],
{
    assert forall|i: int| 0 <= i < b.len() implies b[i] == c[i] by {
        assert(b[i] == c.subrange(0, b.len() as int)[i]);
    }
    assert forall|i: int| 0 <= i < a.len() implies a[i] == c[i] by {
        assert(a[i] == b.subrange(0, a.len() as int)[i]);
    }
    assert(a =~= c.subrange(0, a.len() as int));
}

/// The decision at the place is for the package version, and was not discarded later on.
pub open spec fn stands<K, V>(log: Seq<Observed<K, V>>, i: int, k: K, v: V) -> bool {
    &&& log[i] is Decision
    &&& log[i]->Decision_0 == k
    &&& log[i]->Decision_1 == v
    &&& forall|j: int|
        i < j < log.len() && (#[trigger] log[j]) is Backtrack ==> log[j]->Backtrack_1
            >= log[i]->Decision_2
}

/// The observer was told of a decision for the package version that was not discarded later on.
pub open spec fn is_committed<K, V>(
    before: Seq<Observed<K, V>>,
    after: Seq<Observed<K, V>>,
    k: K,
    v: V,
) -> bool {
    exists|i: int| before.len() <= i < after.len() && #[trigger] stands(after, i, k, v)
}

/// The observer was told of a decision for the package version.
pub open spec fn is_decided<K, V>(
    before: Seq<Observed<K, V>>,
    after: Seq<Observed<K, V>>,
    k: K,
    v: V,
) -> bool {
    exists|i: int|
        before.len() <= i < after.len() && (#[trigger] after[i]) is Decision
            && after[i]->Decision_0 == k && after[i]->Decision_1 == v
}

/// The observer was told of the decisions that make the selection.
pub open spec fn tells_selection<K, V>(
    before: Seq<Observed<K, V>>,
    after: Seq<Observed<K, V>>,
    s: Map<K, V>,
) -> bool {
    forall|k: K| #[trigger] s.dom().contains(k) ==> is_decided(before, after, k, s[k])
}

/// What was told stays told.
pub proof fn lemma_decided_later<K, V>(
    a: Seq<Observed<K, V>>,
    b: Seq<Observed<K, V>>,
    c: Seq<Observed<K, V>>,
    d: Seq<Observed<K, V>>,
    k: K,
    v: V,
)
    requires
        is_decided(b, c, k, v),
        a.len() <= b.len(),
        c.is_prefix_of(d),
    ensures
        is_decided(a, d, k, v),
{
    let i = choose|i: int|
        b.len() <= i < c.len() && (#[trigger] c[i]) is Decision && c[i]->Decision_0 == k
            && c[i]->Decision_1 == v;
    assert(c[i] == d.subrange(0, c.len() as int)[i]);
    assert(d[i] == c[i]);
}

pub proof fn lemma_selection_later<K, V>(
    a: Seq<Observed<K, V>>,
    b: Seq<Observed<K, V>>,
    c: Seq<Observed<K, V>>,
    d: Seq<Observed<K, V>>,
    s: Map<K, V>,
)
    requires
        tells_selection(b, c, s),
        a.len() <= b.len(),
        c.is_prefix_of(d),
    ensures
        tells_selection(a, d, s),
{
    assert forall|k: K| #[trigger] s.dom().contains(k) implies is_decided(a, d, k, s[k]) by {
        lemma_decided_later(a, b, c, d, k, s[k]);
    }
}

/// The decisions that are left at the end of the log, given those at its place `start`.
pub open spec fn replayed<K, V>(
    decisions: Seq<(K, V)>,
    start: int,
    log: Seq<Observed<K, V>>,
) -> Seq<(K, V)>
    decreases log.len(),
{
    if log.len() <= start || log.len() == 0 {
        decisions
    } else {
        let earlier = replayed(decisions, start, log.drop_last());
        match log.last() {
            Observed::Decision(k, v, _) => earlier.push((k, v)),
            Observed::Backtrack(_, to_level, _) => if to_level <= earlier.len() {
                earlier.take(to_level as int)
            } else {
                earlier
            },
            _ => earlier,
        }
    }
}

/// Every level that the events from `start` on go back from is one that its number can hold.
pub open spec fn levels_fit<K, V>(start: int, log: Seq<Observed<K, V>>) -> bool {
    forall|i: int|
        start <= i < log.len() && (#[trigger] log[i]) is Backtrack ==> log[i]->Backtrack_0
            < u32::MAX
}

/// The observer was told before the place that a derivation ruled out the state of the package, which
/// was left open until that derivation.
pub open spec fn is_ruled_out<K, V>(
    start: int,
    log: Seq<Observed<K, V>>,
    i: int,
    k: K,
    x: Option<V>,
) -> bool {
    exists|j: int|
        start <= j < i && (#[trigger] log[j]) is Derivation && log[j]->Derivation_0 == k
            && !log[j]->Derivation_2.contains(x) && (log[j]->Derivation_1 matches Some(previous)
            ==> previous.contains(x))
}

/// Of every version that a choice of a package does not allow, the observer was told how it was ruled
/// out.
pub open spec fn explains_choices<K, V>(start: int, log: Seq<Observed<K, V>>) -> bool {
    forall|i: int, v: V|
        start <= i < log.len() && (#[trigger] log[i]) is PackageChoice
            && !#[trigger] log[i]->PackageChoice_1.contains(v) ==> is_ruled_out(
            start,
            log,
            i,
            log[i]->PackageChoice_0,
            Some(v),
        )
}

/// More events leave the earlier choices explained.
pub proof fn lemma_explains_later<K, V>(
    start: int,
    log: Seq<Observed<K, V>>,
    longer: Seq<Observed<K, V>>,
)
    requires
        0 <= start,
        explains_choices(start, log),
        log.is_prefix_of(longer),
        forall|i: int, v: V|
            log.len() <= i < longer.len() && (#[trigger] longer[i]) is PackageChoice
                && !#[trigger] longer[i]->PackageChoice_1.contains(v) ==> is_ruled_out(
                start,
                longer,
                i,
                longer[i]->PackageChoice_0,
                Some(v),
            ),
    ensures
        explains_choices(start, longer),
{
    assert forall|i: int| 0 <= i < log.len() implies #[trigger] longer[i] == log[i] by {
        assert(log[i] == longer.subrange(0, log.len() as int)[i]);
    }
    assert forall|i: int, v: V|
        start <= i < longer.len() && (#[trigger] longer[i]) is PackageChoice
            && !#[trigger] longer[i]->PackageChoice_1.contains(v) implies is_ruled_out(
        start,
        longer,
        i,
        longer[i]->PackageChoice_0,
        Some(v),
    ) by {
        if i < log.len() {
            let k = log[i]->PackageChoice_0;
            assert(!log[i]->PackageChoice_1.contains(v));
            assert(is_ruled_out(start, log, i, k, Some(v)));
            let j = choose|j: int|
                start <= j < i && (#[trigger] log[j]) is Derivation && log[j]->Derivation_0 == k
                    && !log[j]->Derivation_2.contains(Some(v)) && (
                log[j]->Derivation_1 matches Some(previous) ==> previous.contains(Some(v)));
            assert(longer[j] == log[j]);
        }
    }
}

/// The setbacks that the log tells of from `start` on, each with the package that was affected and
/// the cause: the solver went back, and took a step about that package instead.
pub open spec fn setbacks<K, V>(start: int, log: Seq<Observed<K, V>>) -> Seq<(K, Cause<K, V>)>
    decreases log.len(),
{
    if log.len() <= start || log.len() == 0 {
        Seq::empty()
    } else {
        let n = log.len() - 1;
        let earlier = setbacks(start, log.drop_last());
        if n > start && log[n - 1] is Backtrack && log[n] is Derivation {
            earlier.push((log[n]->Derivation_0, cause_of(log[n - 1])))
        } else {
            earlier
        }
    }
}

/// The last event, if any is new, is not to go back.
pub open spec fn has_settled<K, V>(before: Seq<Observed<K, V>>, after: Seq<Observed<K, V>>) -> bool {
    after.len() > before.len() ==> !(after.last() is Backtrack)
}

pub proof fn lemma_setbacks_push<K, V>(
    before: Seq<Observed<K, V>>,
    after: Seq<Observed<K, V>>,
    o: Observed<K, V>,
)
    requires
        before.len() <= after.len(),
        has_settled(before, after) || !(o is Derivation),
    ensures
        setbacks(before.len() as int, after.push(o)) == setbacks(before.len() as int, after),
{
    let longer = after.push(o);
    assert(longer.drop_last() =~= after);
    if after.len() > before.len() {
        assert(longer[after.len() - 1] == after.last());
    }
}

pub proof fn lemma_setbacks_chain<K, V>(
    a: Seq<Observed<K, V>>,
    b: Seq<Observed<K, V>>,
    c: Seq<Observed<K, V>>,
)
    requires
        a.is_prefix_of(b),
        b.is_prefix_of(c),
        has_settled(a, b),
    ensures
        setbacks(a.len() as int, c) == setbacks(a.len() as int, b) + setbacks(b.len() as int, c),
    decreases c.len(),
{
    if c.len() == b.len() {
        assert(c =~= b);
        assert(setbacks(a.len() as int, c) =~= setbacks(a.len() as int, b) + setbacks(
            b.len() as int,
            c,
        ));
    } else {
        let shorter = c.drop_last();
        assert(b =~= shorter.subrange(0, b.len() as int));
        lemma_setbacks_chain(a, b, shorter);
        if c.len() - 1 == b.len() && b.len() > a.len() {
            assert(c[b.len() - 1] == c.subrange(0, b.len() as int)[b.len() - 1]);
        }
        assert(setbacks(a.len() as int, c) =~= setbacks(a.len() as int, b) + setbacks(
            b.len() as int,
            c,
        ));
    }
}

/// The level as a number in an event, up to what such a number can hold.
pub open spec fn level_told(level: int) -> u32 {
    if level <= u32::MAX {
        level as u32
    } else {
        u32::MAX
    }
}

/// The number in an event is the level, as far as such a number can hold it.
pub open spec fn is_number_of(told: u32, level: int) -> bool {
    &&& level <= u32::MAX ==> told == level
    &&& level > u32::MAX ==> told == u32::MAX
}

/// The event takes the solver from the one number of decisions to the other one, and tells so. Who is
/// not told of everything need not be told that decisions were discarded.
pub open spec fn is_level_step<K, V>(from: int, to: int, o: Observed<K, V>, asks: bool) -> bool {
    match o {
        Observed::Decision(_, _, level) => {
            &&& 1 <= to <= from + 1
            &&& asks ==> to == from + 1
            &&& is_number_of(level, to)
        },
        Observed::Backtrack(from_level, to_level, _) => {
            &&& 0 <= to < from
            &&& is_number_of(to_level, to)
            &&& asks ==> is_number_of(from_level, from)
        },
        _ => {
            &&& 0 <= to <= from
            &&& asks ==> to == from
        },
    }
}

/// The numbers of decisions in force, before each of the events from `start` on and after the last.
pub open spec fn are_levels<K, V>(
    levels: Seq<int>,
    start: int,
    log: Seq<Observed<K, V>>,
    asks: bool,
) -> bool {
    &&& 0 <= start <= log.len()
    &&& levels.len() == log.len() - start + 1
    &&& forall|i: int|
        start <= i < log.len() ==> is_level_step(
            levels[i - start],
            levels[i - start + 1],
            #[trigger] log[i],
            asks,
        )
}

/// The events from `start` on tell of a solver that goes from the first number of decisions to the
/// last one.
#[verifier::opaque]
pub open spec fn count_levels<K, V>(
    first: int,
    last: int,
    start: int,
    log: Seq<Observed<K, V>>,
    asks: bool,
) -> bool {
    exists|levels: Seq<int>|
        {
            &&& #[trigger] are_levels(levels, start, log, asks)
            &&& levels[0] == first
            &&& 0 <= last <= levels.last()
            &&& asks ==> last == levels.last()
        }
}

pub proof fn lemma_no_levels<K, V>(first: int, log: Seq<Observed<K, V>>, asks: bool)
    requires
        first >= 0,
    ensures
        count_levels(first, first, log.len() as int, log, asks),
{
    reveal(count_levels);
    assert(are_levels(seq![first], log.len() as int, log, asks));
}

/// One event more.
pub proof fn lemma_levels_push<K, V>(
    first: int,
    middle: int,
    last: int,
    start: int,
    log: Seq<Observed<K, V>>,
    o: Observed<K, V>,
    asks: bool,
)
    requires
        count_levels(first, middle, start, log, asks),
        is_level_step(middle, last, o, asks),
        last >= 0,
    ensures
        count_levels(first, last, start, log.push(o), asks),
{
    reveal(count_levels);
    let levels = choose|levels: Seq<int>|
        {
            &&& #[trigger] are_levels(levels, start, log, asks)
            &&& levels[0] == first
            &&& 0 <= middle <= levels.last()
            &&& asks ==> middle == levels.last()
        };
    let longer = log.push(o);
    let more = levels.push(last);
    assert forall|i: int| start <= i < longer.len() implies is_level_step(
        more[i - start],
        more[i - start + 1],
        #[trigger] longer[i],
        asks,
    ) by {
        if i < log.len() {
            assert(longer[i] == log[i]);
        }
    }
    assert(are_levels(more, start, longer, asks));
}

/// Who is not told of everything need not be told that decisions were discarded.
pub proof fn lemma_levels_fall<K, V>(
    first: int,
    middle: int,
    last: int,
    start: int,
    log: Seq<Observed<K, V>>,
)
    requires
        count_levels(first, middle, start, log, false),
        0 <= last <= middle,
    ensures
        count_levels(first, last, start, log, false),
{
    reveal(count_levels);
}

/// What is told in turn.
pub proof fn lemma_levels_chain<K, V>(
    first: int,
    middle: int,
    last: int,
    start: int,
    b: Seq<Observed<K, V>>,
    c: Seq<Observed<K, V>>,
    asks: bool,
)
    requires
        count_levels(first, middle, start, b, asks),
        count_levels(middle, last, b.len() as int, c, asks),
        b.is_prefix_of(c),
    ensures
        count_levels(first, last, start, c, asks),
{
    reveal(count_levels);
    let x = choose|levels: Seq<int>|
        {
            &&& #[trigger] are_levels(levels, start, b, asks)
            &&& levels[0] == first
            &&& 0 <= middle <= levels.last()
            &&& asks ==> middle == levels.last()
        };
    let y = choose|levels: Seq<int>|
        {
            &&& #[trigger] are_levels(levels, b.len() as int, c, asks)
            &&& levels[0] == middle
            &&& 0 <= last <= levels.last()
            &&& asks ==> last == levels.last()
        };
    let all = x + y.skip(1);
    assert forall|i: int| start <= i < c.len() implies is_level_step(
        all[i - start],
        all[i - start + 1],
        #[trigger] c[i],
        asks,
    ) by {
        if i < b.len() {
            assert(b[i] == c.subrange(0, b.len() as int)[i]);
            assert(b[i] == c[i]);
        } else {
            assert(is_level_step(y[i - b.len()], y[i - b.len() + 1], c[i], asks));
        }
    }
    assert(are_levels(all, start, c, asks));
}

/// The level of the event at the place is the number of decisions: after a decision, that one
/// included, and before going back.
pub open spec fn is_level_told<K, V>(
    decisions: Seq<(K, V)>,
    start: int,
    log: Seq<Observed<K, V>>,
    i: int,
) -> bool {
    match log[i] {
        Observed::Decision(_, _, level) => level == level_told(
            replayed(decisions, start, log.take(i + 1)).len() as int,
        ),
        Observed::Backtrack(from_level, _, _) => from_level == level_told(
            replayed(decisions, start, log.take(i)).len() as int,
        ),
        _ => true,
    }
}

/// The levels of the events from `start` on are numbers of decisions.
pub open spec fn levels_are_told<K, V>(
    decisions: Seq<(K, V)>,
    start: int,
    log: Seq<Observed<K, V>>,
) -> bool {
    forall|i: int|
        start <= i < log.len() ==> #[trigger] is_level_told(decisions, start, log, i)
}

/// Where the levels are told, a decision that is not left at the end was discarded by an event that
/// went back from its level, or from above, to below.
pub proof fn discarded_decision_is_told<K, V>(
    decisions: Seq<(K, V)>,
    start: int,
    log: Seq<Observed<K, V>>,
    i: int,
)
    requires
        0 <= start <= i < log.len(),
        levels_are_told(decisions, start, log),
        levels_fit(start, log),
        log[i] is Decision,
        log[i]->Decision_2 < u32::MAX,
        ({
            let left = replayed(decisions, start, log);
            let level = log[i]->Decision_2;
            left.len() < level || left[level - 1] != (log[i]->Decision_0, log[i]->Decision_1)
        }),
    ensures
        exists|j: int|
            i < j < log.len() && (#[trigger] log[j]) is Backtrack && log[j]->Backtrack_1
                < log[i]->Decision_2 <= log[j]->Backtrack_0,
    decreases log.len(),
{
    let shorter = log.drop_last();
    let n = log.len() - 1;
    let earlier = replayed(decisions, start, shorter);
    let level = log[i]->Decision_2;
    assert(log.take(n + 1) =~= log);
    assert(log.take(n) =~= shorter);
    assert(is_level_told(decisions, start, log, i));
    if i == n {
        assert(replayed(decisions, start, log) == earlier.push(
            (log[i]->Decision_0, log[i]->Decision_1),
        ));
        assert(false);
    } else {
        assert forall|j: int| start <= j < shorter.len() implies #[trigger] is_level_told(
            decisions,
            start,
            shorter,
            j,
        ) by {
            assert(log[j] == shorter[j]);
            assert(is_level_told(decisions, start, log, j));
            assert(log.take(j + 1) =~= shorter.take(j + 1));
            assert(log.take(j) =~= shorter.take(j));
        }
        assert(levels_fit(start, shorter)) by {
            assert forall|j: int|
                start <= j < shorter.len() && (#[trigger] shorter[j]) is Backtrack implies
                shorter[j]->Backtrack_0 < u32::MAX by {
                assert(log[j] == shorter[j]);
            }
        }
        if earlier.len() < level || earlier[level - 1] != (
            log[i]->Decision_0,
            log[i]->Decision_1,
        ) {
            discarded_decision_is_told(decisions, start, shorter, i);
            let j = choose|j: int|
                i < j < shorter.len() && (#[trigger] shorter[j]) is Backtrack
                    && shorter[j]->Backtrack_1 < shorter[i]->Decision_2 <= shorter[j]->Backtrack_0;
            assert(log[j] == shorter[j]);
        } else {
            assert(is_level_told(decisions, start, log, n));
            assert(log[n] is Backtrack);
            assert(log[n]->Backtrack_0 < u32::MAX);
        }
    }
}

pub proof fn lemma_replayed_chain<K, V>(
    decisions: Seq<(K, V)>,
    a: Seq<Observed<K, V>>,
    b: Seq<Observed<K, V>>,
    c: Seq<Observed<K, V>>,
)
    requires
        a.is_prefix_of(b),
        b.is_prefix_of(c),
    ensures
        replayed(decisions, a.len() as int, c) == replayed(
            replayed(decisions, a.len() as int, b),
            b.len() as int,
            c,
        ),
    decreases c.len(),
{
    if c.len() == b.len() {
        assert(c =~= b);
    } else {
        let shorter = c.drop_last();
        assert(b =~= shorter.subrange(0, b.len() as int));
        lemma_replayed_chain(decisions, a, b, shorter);
    }
}

/// The sum of the weights of the events.
pub open spec fn total<K, V>(log: Seq<Observed<K, V>>, weight: spec_fn(Observed<K, V>) -> int) -> int
    decreases log.len(),
{
    if log.len() == 0 {
        0
    } else {
        total(log.drop_last(), weight) + weight(log.last())
    }
}

/// One for every solution.
pub open spec fn solution_weight<K, V>() -> spec_fn(Observed<K, V>) -> int {
    |o: Observed<K, V>|
        match o {
            Observed::Solution => 1,
            _ => 0,
        }
}

/// Where an enumeration stands: the number of its last run, whether that is under way, and the
/// package of the probe that is under way.
pub struct Stage<K> {
    pub run: u64,
    pub running: bool,
    pub probe: Option<K>,
}

/// So many runs are done, and nothing is under way.
pub open spec fn idle<K>(run: u64) -> Stage<K> {
    Stage { run, running: false, probe: None }
}

/// The number as one of a run, up to what such a number can hold.
pub open spec fn run_number(n: int) -> u64 {
    if n <= u64::MAX {
        n as u64
    } else {
        u64::MAX
    }
}

/// The stage after the event, where the event has a place: runs are numbered in turn, the search
/// for a better solution comes between runs, that for a preference within a run, and both end with
/// the package that they began with before anything else begins. The path of the solver lies within
/// a run or a probe, and solutions outside.
pub open spec fn next_stage<K, V>(stage: Stage<K>, o: Observed<K, V>) -> Option<Stage<K>> {
    let Stage { run, running, probe } = stage;
    match o {
        Observed::EnumerationRunStarted(n) => if !running && probe is None && n == run_number(
            run + 1,
        ) {
            Some(Stage { run: n, running: true, probe })
        } else {
            None
        },
        Observed::EnumerationRunFinished(n) => if running && probe is None && n == run {
            Some(Stage { run, running: false, probe })
        } else {
            None
        },
        Observed::MaximalityProbeStarted(k) => if !running && probe is None {
            Some(Stage { run, running, probe: Some(k) })
        } else {
            None
        },
        Observed::MaximalityProbeFinished(k, _) => if !running && probe == Some(k) {
            Some(Stage { run, running, probe: None })
        } else {
            None
        },
        Observed::PreferenceProbeStarted(k) => if running && probe is None {
            Some(Stage { run, running, probe: Some(k) })
        } else {
            None
        },
        Observed::PreferenceProbeFinished(k, _) => if running && probe == Some(k) {
            Some(Stage { run, running, probe: None })
        } else {
            None
        },
        Observed::Solution => if !running && probe is None {
            Some(stage)
        } else {
            None
        },
        _ => if running || probe is Some {
            Some(stage)
        } else {
            None
        },
    }
}

/// The stage at the end of the log, given that at its place `start`, where every event has a place.
pub open spec fn stage_after<K, V>(
    from: Stage<K>,
    start: int,
    log: Seq<Observed<K, V>>,
) -> Option<Stage<K>>
    decreases log.len(),
{
    if log.len() <= start || log.len() == 0 {
        Some(from)
    } else {
        match stage_after(from, start, log.drop_last()) {
            Some(stage) => next_stage(stage, log.last()),
            None => None,
        }
    }
}

/// The log has grown by events that lead from one stage to the other, with so many solutions.
#[verifier::opaque]
pub open spec fn leads<P: Package, VS: VersionSet, M, O: SolverObserver<P, VS, M>>(
    before: Seq<Observed<P::V, VS::V>>,
    after: Seq<Observed<P::V, VS::V>>,
    from: Stage<P::V>,
    to: Stage<P::V>,
    solutions: int,
) -> bool {
    &&& records::<P, VS, M, O>(before, after)
    &&& at_rest(before, after)
    &&& stage_after(from, before.len() as int, after) == Some(to)
    &&& total(after, solution_weight()) == total(before, solution_weight()) + solutions
}

/// The log has grown by so many complete runs, numbered from one on, by complete probes, and by so
/// many solutions.
pub open spec fn reports<P: Package, VS: VersionSet, M, O: SolverObserver<P, VS, M>>(
    before: Seq<Observed<P::V, VS::V>>,
    after: Seq<Observed<P::V, VS::V>>,
    runs: u64,
    solutions: int,
) -> bool {
    leads::<P, VS, M, O>(before, after, idle(0), idle(runs), solutions)
}

/// The log has grown by complete probes, wherever between two runs.
pub open spec fn probes<P: Package, VS: VersionSet, M, O: SolverObserver<P, VS, M>>(
    before: Seq<Observed<P::V, VS::V>>,
    after: Seq<Observed<P::V, VS::V>>,
) -> bool {
    forall|run: u64| #[trigger]
        leads::<P, VS, M, O>(before, after, idle(run), idle(run), 0)
}

/// The search for an upgrade of the package has ended without one.
pub open spec fn is_at_best<K, V>(
    before: Seq<Observed<K, V>>,
    after: Seq<Observed<K, V>>,
    k: K,
) -> bool {
    exists|i: int|
        before.len() <= i < after.len() && #[trigger] after[i] == Observed::<
            K,
            V,
        >::MaximalityProbeFinished(k, MaximalityProbeResult::NoImprovement)
}

/// How the searches for upgrades have ended, from `start` on.
pub open spec fn upgrades<K, V>(start: int, log: Seq<Observed<K, V>>) -> Seq<
    (K, MaximalityProbeResult),
>
    decreases log.len(),
{
    if log.len() <= start || log.len() == 0 {
        Seq::empty()
    } else {
        let earlier = upgrades(start, log.drop_last());
        match log.last() {
            Observed::MaximalityProbeFinished(k, result) => earlier.push((k, result)),
            _ => earlier,
        }
    }
}

/// No probe has ended with an error.
pub open spec fn no_probe_failed<K, V>(
    before: Seq<Observed<K, V>>,
    after: Seq<Observed<K, V>>,
) -> bool {
    forall|i: int|
        before.len() <= i < after.len() ==> match #[trigger] after[i] {
            Observed::MaximalityProbeFinished(_, result) => !(result is Error),
            Observed::PreferenceProbeFinished(_, result) => !(result is Error),
            _ => true,
        }
}

/// Every event marks the beginning or the end of a run or a probe.
pub open spec fn only_boundaries<K, V>(
    before: Seq<Observed<K, V>>,
    after: Seq<Observed<K, V>>,
) -> bool {
    forall|i: int|
        before.len() <= i < after.len() ==> is_boundary(#[trigger] after[i]) && !(
        after[i] is Solution)
}

/// The events from one place to the other tell of complete runs, numbered from one on.
pub open spec fn is_chapter<K, V>(log: Seq<Observed<K, V>>, a: int, b: int) -> bool {
    &&& 0 <= a <= b <= log.len()
    &&& exists|runs: u64|
        runs >= 1 && stage_after(idle(0), a, log.take(b)) == Some(#[trigger] idle::<K>(runs))
}

/// The log falls into so many chapters from `start` on.
pub open spec fn has_chapters<K, V>(start: int, log: Seq<Observed<K, V>>, n: nat) -> bool
    decreases n,
{
    if n == 0 {
        log.len() == start
    } else {
        exists|a: int|
            #[trigger] is_chapter(log, a, log.len() as int) && has_chapters(
                start,
                log.take(a),
                (n - 1) as nat,
            )
    }
}

/// The log has grown by so many chapters and solutions.
#[verifier::opaque]
pub open spec fn narrates<P: Package, VS: VersionSet, M, O: SolverObserver<P, VS, M>>(
    before: Seq<Observed<P::V, VS::V>>,
    after: Seq<Observed<P::V, VS::V>>,
    chapters: nat,
    solutions: int,
) -> bool {
    &&& records::<P, VS, M, O>(before, after)
    &&& at_rest(before, after)
    &&& has_chapters(before.len() as int, after, chapters)
    &&& total(after, solution_weight()) == total(before, solution_weight()) + solutions
}

pub proof fn lemma_narrates_chain<P: Package, VS: VersionSet, M, O: SolverObserver<P, VS, M>>(
    a: Seq<Observed<P::V, VS::V>>,
    b: Seq<Observed<P::V, VS::V>>,
    c: Seq<Observed<P::V, VS::V>>,
    chapters: nat,
    first: int,
    runs: u64,
    second: int,
)
    requires
        narrates::<P, VS, M, O>(a, b, chapters, first),
        reports::<P, VS, M, O>(b, c, runs, second),
        runs >= 1,
    ensures
        narrates::<P, VS, M, O>(a, c, chapters + 1, first + second),
{
    reveal(narrates);
    reveal(leads);
    lemma_records_chain::<P, VS, M, O>(a, b, c);
    lemma_prefix_chain(b, b, c);
    assert(c.take(b.len() as int) =~= b);
    assert(c.take(c.len() as int) =~= c);
    assert(stage_after(idle(0), b.len() as int, c) == Some(idle::<P::V>(runs)));
    assert(is_chapter(c, b.len() as int, c.len() as int));
}

pub proof fn lemma_leads_push<P: Package, VS: VersionSet, M, O: SolverObserver<P, VS, M>>(
    before: Seq<Observed<P::V, VS::V>>,
    after: Seq<Observed<P::V, VS::V>>,
    o: Observed<P::V, VS::V>,
    from: Stage<P::V>,
    to: Stage<P::V>,
    solutions: int,
)
    requires
        records::<P, VS, M, O>(before, after),
        stage_after(from, before.len() as int, after) == Some(to),
        total(after, solution_weight()) == total(before, solution_weight()) + solutions,
        is_boundary(o),
        next_stage(to, o) is Some,
    ensures
        leads::<P, VS, M, O>(
            before,
            after.push(o),
            from,
            next_stage(to, o)->0,
            solutions + solution_weight()(o),
        ),
{
    reveal(leads);
    let longer = after.push(o);
    assert(longer.drop_last() =~= after);
    lemma_records_push::<P, VS, M, O>(before, after, o);
}

/// Where nothing is told, nothing changes.
pub proof fn lemma_leads_nowhere<P: Package, VS: VersionSet, M, O: SolverObserver<P, VS, M>>(
    log: Seq<Observed<P::V, VS::V>>,
)
    ensures
        probes::<P, VS, M, O>(log, log),
        reports::<P, VS, M, O>(log, log, 0, 0),
        narrates::<P, VS, M, O>(log, log, 0, 0),
{
    reveal(leads);
    reveal(narrates);
    assert(log.is_prefix_of(log));
}

/// What was told before stays.
pub proof fn lemma_leads_prefix<P: Package, VS: VersionSet, M, O: SolverObserver<P, VS, M>>(
    before: Seq<Observed<P::V, VS::V>>,
    after: Seq<Observed<P::V, VS::V>>,
    from: Stage<P::V>,
    to: Stage<P::V>,
    solutions: int,
)
    requires
        leads::<P, VS, M, O>(before, after, from, to, solutions),
    ensures
        before.is_prefix_of(after),
        before.len() <= after.len(),
        forall|i: int| 0 <= i < before.len() ==> #[trigger] after[i] == before[i],
{
    reveal(leads);
    assert forall|i: int| 0 <= i < before.len() implies #[trigger] after[i] == before[i] by {
        assert(before[i] == after.subrange(0, before.len() as int)[i]);
    }
}

/// The path of a run stays within its stage, and announces no solution.
pub proof fn lemma_path_stays<K, V>(
    before: Seq<Observed<K, V>>,
    after: Seq<Observed<K, V>>,
    stage: Stage<K>,
)
    requires
        before.is_prefix_of(after),
        forall|i: int| before.len() <= i < after.len() ==> on_path(#[trigger] after[i]),
        stage.running || stage.probe is Some,
    ensures
        stage_after(stage, before.len() as int, after) == Some(stage),
        total(after, solution_weight()) == total(before, solution_weight()),
        upgrades(before.len() as int, after) == Seq::<(K, MaximalityProbeResult)>::empty(),
    decreases after.len(),
{
    if after.len() > before.len() {
        let shorter = after.drop_last();
        assert(before =~= shorter.subrange(0, before.len() as int)) by {
            assert forall|i: int| 0 <= i < before.len() implies before[i] == shorter[i] by {
                assert(before[i] == after.subrange(0, before.len() as int)[i]);
            }
        }
        assert forall|i: int| before.len() <= i < shorter.len() implies on_path(
            #[trigger] shorter[i],
        ) by {
            assert(shorter[i] == after[i]);
        }
        lemma_path_stays(before, shorter, stage);
        assert(on_path(after[after.len() - 1]));
    } else {
        assert(before =~= after);
    }
}

pub proof fn lemma_stage_chain<K, V>(
    a: Seq<Observed<K, V>>,
    b: Seq<Observed<K, V>>,
    c: Seq<Observed<K, V>>,
    from: Stage<K>,
    mid: Stage<K>,
)
    requires
        a.is_prefix_of(b),
        b.is_prefix_of(c),
        stage_after(from, a.len() as int, b) == Some(mid),
    ensures
        stage_after(from, a.len() as int, c) == stage_after(mid, b.len() as int, c),
        upgrades(a.len() as int, c) == upgrades(a.len() as int, b) + upgrades(b.len() as int, c),
    decreases c.len(),
{
    if c.len() == b.len() {
        assert(c =~= b);
        assert(upgrades(a.len() as int, c) =~= upgrades(a.len() as int, b) + upgrades(
            b.len() as int,
            c,
        ));
    } else {
        let shorter = c.drop_last();
        assert(b =~= shorter.subrange(0, b.len() as int));
        lemma_stage_chain(a, b, shorter, from, mid);
        assert(upgrades(a.len() as int, c) =~= upgrades(a.len() as int, b) + upgrades(
            b.len() as int,
            c,
        ));
    }
}

pub proof fn lemma_leads_chain<P: Package, VS: VersionSet, M, O: SolverObserver<P, VS, M>>(
    a: Seq<Observed<P::V, VS::V>>,
    b: Seq<Observed<P::V, VS::V>>,
    c: Seq<Observed<P::V, VS::V>>,
    from: Stage<P::V>,
    mid: Stage<P::V>,
    to: Stage<P::V>,
    first: int,
    second: int,
)
    requires
        leads::<P, VS, M, O>(a, b, from, mid, first),
        leads::<P, VS, M, O>(b, c, mid, to, second),
    ensures
        leads::<P, VS, M, O>(a, c, from, to, first + second),
{
    reveal(leads);
    lemma_records_chain::<P, VS, M, O>(a, b, c);
    lemma_stage_chain(a, b, c, from, mid);
}

/// After a boundary, the path of a run stays within its stage.
pub proof fn lemma_leads_path<P: Package, VS: VersionSet, M, O: SolverObserver<P, VS, M>>(
    a: Seq<Observed<P::V, VS::V>>,
    b: Seq<Observed<P::V, VS::V>>,
    c: Seq<Observed<P::V, VS::V>>,
    from: Stage<P::V>,
    mid: Stage<P::V>,
    solutions: int,
)
    requires
        leads::<P, VS, M, O>(a, b, from, mid, solutions),
        follows_path::<P, VS, M, O>(b, c),
        mid.running || mid.probe is Some,
    ensures
        records::<P, VS, M, O>(a, c),
        stage_after(from, a.len() as int, c) == Some(mid),
        total(c, solution_weight()) == total(a, solution_weight()) + solutions,
        upgrades(a.len() as int, c) == upgrades(a.len() as int, b),
{
    reveal(leads);
    lemma_records_chain::<P, VS, M, O>(a, b, c);
    lemma_path_stays(b, c, mid);
    lemma_stage_chain(a, b, c, from, mid);
    assert(upgrades(a.len() as int, c) =~= upgrades(a.len() as int, b));
}

} // verus!
