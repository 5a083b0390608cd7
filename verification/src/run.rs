//! One run of the solver.

use vstd::prelude::*;
use vstd::set_lib::*;

use crate::choice;
use crate::choice::Unmet;
use crate::course::Course;
use crate::error;
use crate::error::PubGrubError;
use crate::machine;
use crate::machine::{Core, Machine, Next, Outcome};
use crate::observer;
use crate::observer::{Cause, Observed, SolverEvent, SolverObserver};
use crate::package::Package;
use crate::path;
use crate::polls;
use crate::polls::{Choice, Polls};
use crate::priority;
use crate::problem;
use crate::problem::{Key, Selection, VersionOf};
use crate::progress;
use crate::provider;
use crate::provider::{
    Dependencies, DependencyConstraints, DependencyProvider, IncompatibilityConstraintTerm,
    IncompatibilityConstraints,
};
use crate::report;
use crate::report::{DerivationTree, External};
use crate::search;
use crate::search::{Clause, Entry};
use crate::selected;
use crate::selected::SelectedDependencies;
use crate::state;
use crate::state::State;
use crate::term;
use crate::term::Term;
use crate::trace;
use crate::trace::Step;
use crate::tracker;
use crate::tracker::{ConflictTracker, Counts};
use crate::version;
use crate::version::Version;
use crate::version_set::VersionSet;

verus! {

/// The list holds the package version.
pub open spec fn has_pair<P: Package, V>(pairs: Seq<(P, V)>, k: P::V, v: V) -> bool {
    exists|i: int| 0 <= i < pairs.len() && (#[trigger] pairs[i]).0@ == k && pairs[i].1 == v
}

/// The package versions that are offered and not in the list.
pub open spec fn not_added<DP: DependencyProvider>(
    dp: DP,
    pairs: Seq<(DP::P, VersionOf<DP>)>,
) -> Set<(Key<DP>, VersionOf<DP>)> {
    Set::new(
        |pair: (Key<DP>, VersionOf<DP>)|
            dp.offers(pair.0, pair.1) && !has_pair(pairs, pair.0, pair.1),
    )
}

pub proof fn lemma_not_added<DP: DependencyProvider>(
    dp: DP,
    pairs: Seq<(DP::P, VersionOf<DP>)>,
    pair: (DP::P, VersionOf<DP>),
)
    requires
        dp.offers(pair.0@, pair.1),
        !has_pair(pairs, pair.0@, pair.1),
    ensures
        not_added(dp, pairs.push(pair)).len() < not_added(dp, pairs).len(),
{
    let all = Set::new(|pair: (Key<DP>, VersionOf<DP>)| dp.offers(pair.0, pair.1));
    let before = not_added(dp, pairs);
    let after = not_added(dp, pairs.push(pair));
    dp.offers_are_finite();
    lemma_set_subset_finite(all, before);
    assert(pairs.push(pair)[pairs.len() as int] == pair);
    assert(has_pair(pairs.push(pair), pair.0@, pair.1));
    assert(after.subset_of(before)) by {
        assert forall|x: (Key<DP>, VersionOf<DP>)| #[trigger] after.contains(
            x,
        ) implies before.contains(x) by {
            if has_pair(pairs, x.0, x.1) {
                let i = choose|i: int|
                    0 <= i < pairs.len() && (#[trigger] pairs[i]).0@ == x.0 && pairs[i].1 == x.1;
                assert(pairs.push(pair)[i] == pairs[i]);
            }
        }
    }
    let x = (pair.0@, pair.1);
    assert(before.contains(x) && !after.contains(x));
    after.lemma_subset_not_in_lt(before, x);
}

/// How often each package was part of a conflict.
pub open spec fn counts_in<P: Package>(conflict_tracker: ConflictTracker<P>) -> spec_fn(
    P::V,
) -> Counts {
    |k: P::V| conflict_tracker.counts(k)
}

proof fn lemma_keyed<P: Package, V>(pairs: Seq<(P, V)>, k: P::V, v: V)
    ensures
        selected::keyed(pairs).contains((k, v)) <==> has_pair(pairs, k, v),
{
    if has_pair(pairs, k, v) {
        let i = choose|i: int|
            0 <= i < pairs.len() && (#[trigger] pairs[i]).0@ == k && pairs[i].1 == v;
        assert(selected::keyed(pairs)[i] == (k, v));
    }
}

/// The state of a solver, which can be run again after ruling out what it found.
#[verifier::reject_recursive_types(DP)]
pub struct SolverState<DP: DependencyProvider> {
    state: State<DP::P, DP::VS, DP::M>,
    root: DP::P,
    version: VersionOf<DP>,
    conflict_tracker: ConflictTracker<DP::P>,
    added: Vec<(DP::P, VersionOf<DP>)>,
    next: DP::P,
    backtracked: bool,
    exclusions: Ghost<Seq<Clause<Key<DP>, VersionOf<DP>>>>,
    polls: Polls<DP>,
}

impl<DP: DependencyProvider> SolverState<DP> {
    /// The root package.
    pub closed spec fn root(self) -> Key<DP> {
        self.root@
    }

    /// The version of the root package.
    pub closed spec fn version(self) -> VersionOf<DP> {
        self.version
    }

    /// What the caller has ruled out.
    pub closed spec fn exclusions(self) -> Seq<Clause<Key<DP>, VersionOf<DP>>> {
        self.exclusions@
    }

    /// What the provider has answered whenever it was asked whether to go on, each time with the number
    /// of events that had been told.
    pub closed spec fn polls(self) -> Seq<(int, Result<(), DP::Err>)> {
        self.polls@
    }

    /// The versions that the provider has chosen when it was asked, in turn.
    pub closed spec fn choices(self) -> Seq<Choice<DP>> {
        self.polls.chosen()
    }

    /// The versions of which the provider was asked what they depend on, in turn, each with the number
    /// of events that had been told.
    pub closed spec fn retrieved(self) -> Seq<(int, Key<DP>, VersionOf<DP>)> {
        self.polls.retrieved()
    }

    /// The provider was asked once what each version depends on, of which all was added.
    pub open spec fn keeps_record(self) -> bool {
        polls::are_added(self.holdings().added, self.retrieved())
    }

    /// The decisions in turn.
    pub closed spec fn decided(self) -> Seq<(Key<DP>, VersionOf<DP>)> {
        state::decisions(self.state.trail@)
    }

    /// How often the package was part of a conflict.
    pub closed spec fn counts(self, k: Key<DP>) -> Counts {
        self.conflict_tracker.counts(k)
    }

    /// The steps that have been taken and not been given up.
    pub closed spec fn steps(self) -> Seq<Step<Key<DP>, VersionOf<DP>>> {
        trace::steps_of(self.state.entries())
    }

    /// What the solver holds.
    pub closed spec fn holdings(self) -> Core<Key<DP>, VersionOf<DP>> {
        Core {
            clauses: self.state.clauses(),
            trail: self.state.entries(),
            added: selected::keyed(self.added@),
            next: self.next@,
            counts: counts_in(self.conflict_tracker),
            backtracked: self.backtracked,
        }
    }

    /// The course of a run on the provider.
    pub open spec fn takes_course(
        self,
        dp: DP,
        log: Seq<Observed<Key<DP>, VersionOf<DP>>>,
    ) -> Course<DP> {
        Course {
            dp,
            root: self.root(),
            version: self.version(),
            start: self.holdings(),
            from: log.len() as int,
        }
    }

    /// What is told of a decision.
    spec fn told_decision(self, k: Key<DP>, v: VersionOf<DP>) -> Observed<Key<DP>, VersionOf<DP>> {
        Observed::Decision(
            k,
            v,
            observer::level_told(search::level(self.state.entries()) + 1),
        )
    }

    /// What the decided versions require was derived.
    pub closed spec fn is_settled(self, dp: DP) -> bool {
        follows_up(dp, self.state.entries(), None)
    }

    /// Everything that the solver knows is a single fact.
    pub closed spec fn holds_facts(self) -> bool {
        self.state.holds_facts()
    }

    /// No step has been taken.
    pub open spec fn is_blank(self) -> bool {
        self.steps() == Seq::<Step<Key<DP>, VersionOf<DP>>>::empty()
    }

    /// Nothing has been ruled out, decided or counted.
    pub open spec fn is_new(self, root: Key<DP>, version: VersionOf<DP>) -> bool {
        &&& self.root() == root
        &&& self.version() == version
        &&& self.exclusions() == Seq::<Clause<Key<DP>, VersionOf<DP>>>::empty()
        &&& self.decided() == Seq::<(Key<DP>, VersionOf<DP>)>::empty()
        &&& self.is_blank()
        &&& forall|k: Key<DP>| #[trigger] self.counts(k) == (0u32, 0u32, 0u32, 0u32)
    }

    /// Nothing has been learned of the provider.
    pub closed spec fn is_fresh(self) -> bool {
        self.state.rests_on(|e: External<DP::P, DP::VS, DP::M>| e is NotRoot || e is ExcludedSolution)
    }

    /// The state of the search is as it should be.
    pub closed spec fn ok(self) -> bool {
        self.state.ok()
    }

    /// The solver is well-formed, and what it holds is true of the provider.
    pub open spec fn wf(self, dp: DP) -> bool {
        self.ok() && self.agrees(dp)
    }

    /// What the solver holds is true of the provider, and it holds all that it has been told.
    pub closed spec fn agrees(self, dp: DP) -> bool {
        &&& self.state.rests_on(problem::facts(dp, self.root(), self.version(), self.exclusions()))
        &&& problem::keeps(self.state.clauses(), problem::root_clause(self.root(), self.version()))
        &&& forall|i: int|
            0 <= i < self.exclusions().len() ==> problem::keeps(
                self.state.clauses(),
                #[trigger] self.exclusions()[i],
            )
        &&& forall|i: int|
            0 <= i < self.added@.len() ==> {
                &&& dp.offers((#[trigger] self.added@[i]).0@, self.added@[i].1)
                &&& problem::recorded(dp, self.state.clauses(), self.added@[i].0@, self.added@[i].1)
            }
        &&& forall|k: Key<DP>| #[trigger]
            state::selection(self.state.trail@).dom().contains(k) ==> has_pair(
                self.added@,
                k,
                state::selection(self.state.trail@)[k],
            )
        &&& self.is_plain(dp) ==> search::grounded(self.state.entries())
    }

    /// Nothing asks for one of several packages to be selected.
    pub open spec fn is_plain(self, dp: DP) -> bool {
        problem::asks_for_one(dp) && self.exclusions().len() == 0
    }

    /// The problem and what is ruled out are the same.
    pub open spec fn same_problem(self, other: Self) -> bool {
        &&& self.root() == other.root()
        &&& self.version() == other.version()
        &&& self.exclusions() == other.exclusions()
    }
}

/// Asking the provider once more changes nothing else.
proof fn lemma_asked_more<DP: DependencyProvider>(
    start: SolverState<DP>,
    before: SolverState<DP>,
    after: SolverState<DP>,
    dp: DP,
    answers: Seq<(int, Result<(), DP::Err>)>,
)
    requires
        answers == before.polls@,
        after.polls@.len() == answers.len() + 1,
        after.polls@.drop_last() == answers,
        start.polls@.is_prefix_of(answers),
        after == (SolverState { polls: after.polls, ..before }),
        forall|j: int|
            start.polls@.len() <= j < answers.len() ==> call_ensures(
                DP::should_cancel,
                (&dp,),
                (#[trigger] answers[j]).1,
            ),
        call_ensures(DP::should_cancel, (&dp,), after.polls@.last().1),
    ensures
        start.polls@.is_prefix_of(after.polls@),
        forall|j: int|
            start.polls@.len() <= j < after.polls@.len() ==> call_ensures(
                DP::should_cancel,
                (&dp,),
                (#[trigger] after.polls@[j]).1,
            ),
{
    let n = start.polls@.len() as int;
    assert(start.polls@ =~= after.polls@.subrange(0, n)) by {
        assert forall|j: int| 0 <= j < n implies start.polls@[j] == after.polls@[j] by {
            assert(start.polls@[j] == answers.subrange(0, n)[j]);
            assert(after.polls@.drop_last()[j] == after.polls@[j]);
        }
    }
    assert forall|j: int| n <= j < after.polls@.len() implies call_ensures(
        DP::should_cancel,
        (&dp,),
        (#[trigger] after.polls@[j]).1,
    ) by {
        if j < answers.len() {
            assert(after.polls@.drop_last()[j] == after.polls@[j]);
        }
    }
}

/// What the provider was asked is kept in mind where a run ends.
proof fn lemma_run_keeps_up<DP: DependencyProvider, T>(
    dp: DP,
    start: SolverState<DP>,
    solver: SolverState<DP>,
    log: Seq<Observed<Key<DP>, VersionOf<DP>>>,
    after: Seq<Observed<Key<DP>, VersionOf<DP>>>,
    r: Result<T, PubGrubError<DP>>,
)
    requires
        polls::are_choices::<DP>(
            start.polls.chosen().len() as int,
            solver.polls.chosen(),
            log,
            after,
        ),
        start.polls.chosen().is_prefix_of(solver.polls.chosen()),
        forall|c: int|
            start.polls.chosen().len() <= c < solver.polls.chosen().len() ==> polls::is_answered(
                dp,
                #[trigger] solver.polls.chosen()[c],
            ),
        start.keeps_record() ==> solver.keeps_record(),
    ensures
        polls::are_fresh_choices(dp, start.choices(), solver.choices(), log, after, r),
        start.keeps_record() ==> polls::asks_once(solver.retrieved()),
{
    reveal(polls::are_added);
    polls::lemma_fresh_choices(
        dp,
        start.polls.chosen(),
        solver.polls.chosen(),
        log,
        after,
        r,
    );
}

/// How a run ends that returns this.
pub open spec fn outcome<T, DP: DependencyProvider>(r: Result<T, PubGrubError<DP>>) -> Outcome<
    Key<DP>,
    VersionOf<DP>,
> {
    match r {
        Ok(_) => Outcome::Solved,
        Err(PubGrubError::NoSolution(_)) => Outcome::NoSolution,
        Err(PubGrubError::ErrorInShouldCancel(_)) => Outcome::Cancelled,
        Err(PubGrubError::ErrorChoosingVersion { package, .. }) => Outcome::FailedChoice(package@),
        Err(
            PubGrubError::ErrorRetrievingDependencies { package, version, .. },
        ) => Outcome::FailedRetrieval(package@, version),
        Err(PubGrubError::InvalidVersionOrdering { package, version, .. }) => {
            Outcome::InvalidOrdering(package@, version)
        },
    }
}

/// Both return the same solution, or both raise the same kind of error, of the same package at the
/// same version.
pub open spec fn is_same_result<DP: DependencyProvider>(
    a: Result<SelectedDependencies<DP::P, VersionOf<DP>>, PubGrubError<DP>>,
    b: Result<SelectedDependencies<DP::P, VersionOf<DP>>, PubGrubError<DP>>,
) -> bool {
    match (a, b) {
        (Ok(s), Ok(t)) => s@ == t@,
        (Err(_), Err(_)) => outcome(a) == outcome(b),
        _ => false,
    }
}

/// What a run returns and tells of choices and decisions, where the provider is deterministic: what
/// follows from what the solver holds at first.
pub open spec fn is_run<DP: DependencyProvider>(
    dp: DP,
    root: Key<DP>,
    version: VersionOf<DP>,
    start: Core<Key<DP>, VersionOf<DP>>,
    told: Seq<Observed<Key<DP>, VersionOf<DP>>>,
    r: Result<SelectedDependencies<DP::P, VersionOf<DP>>, PubGrubError<DP>>,
) -> bool {
    machine::is_deterministic(dp) ==> exists|end: Machine<Key<DP>, VersionOf<DP>>|
        {
            &&& #[trigger] machine::runs_to(dp, root, version, start, end)
            &&& end.told == told
            &&& end.end == Some(outcome(r))
            &&& r matches Ok(solution) ==> {
                &&& solution@ == machine::selected(end.core.trail)
                &&& solution.listed() == machine::solution_list(end.core.trail)
            }
        }
}

/// A run that is to meet the demands ends like that, where the provider is deterministic.
pub open spec fn ends_as<T, DP: DependencyProvider>(
    dp: DP,
    root: Key<DP>,
    version: VersionOf<DP>,
    demands: Clause<Key<DP>, VersionOf<DP>>,
    r: Result<T, PubGrubError<DP>>,
) -> bool {
    let start = machine::ruling_out_all(
        machine::at_first(root, version),
        forced_clauses(root, version, demands),
    );
    machine::is_deterministic(dp) ==> machine::run_of(dp, root, version, start).end == Some(
        outcome(r),
    )
}

/// Two runs that start with the same in hand return the same and tell the same.
pub proof fn lemma_same_run<DP: DependencyProvider>(
    dp: DP,
    root: Key<DP>,
    version: VersionOf<DP>,
    start: Core<Key<DP>, VersionOf<DP>>,
    told: Seq<Observed<Key<DP>, VersionOf<DP>>>,
    r: Result<SelectedDependencies<DP::P, VersionOf<DP>>, PubGrubError<DP>>,
    also_told: Seq<Observed<Key<DP>, VersionOf<DP>>>,
    also: Result<SelectedDependencies<DP::P, VersionOf<DP>>, PubGrubError<DP>>,
)
    requires
        machine::is_deterministic(dp),
        is_run(dp, root, version, start, told, r),
        is_run(dp, root, version, start, also_told, also),
    ensures
        is_same_result(r, also),
        told == also_told,
{
    let a = choose|end: Machine<Key<DP>, VersionOf<DP>>|
        {
            &&& #[trigger] machine::runs_to(dp, root, version, start, end)
            &&& end.told == told
            &&& end.end == Some(outcome(r))
            &&& r matches Ok(solution) ==> {
                &&& solution@ == machine::selected(end.core.trail)
                &&& solution.listed() == machine::solution_list(end.core.trail)
            }
        };
    let b = choose|end: Machine<Key<DP>, VersionOf<DP>>|
        {
            &&& #[trigger] machine::runs_to(dp, root, version, start, end)
            &&& end.told == also_told
            &&& end.end == Some(outcome(also))
            &&& also matches Ok(solution) ==> {
                &&& solution@ == machine::selected(end.core.trail)
                &&& solution.listed() == machine::solution_list(end.core.trail)
            }
        };
    machine::run_ends_in_one_way(dp, root, version, start, a, b);
}

proof fn lemma_after_causes<P: Package, V>(
    counts: Counts,
    store: Seq<Clause<P::V, V>>,
    causes: Seq<(P, usize)>,
    k: P::V,
)
    ensures
        machine::after_causes(counts, store, state::causes_met(causes), k) == after_conflicts(
            counts,
            store,
            causes,
            k,
        ),
    decreases causes.len(),
{
    let met = state::causes_met(causes);
    if causes.len() > 0 {
        assert(met.drop_last() =~= state::causes_met(causes.drop_last()));
        assert(met.last() == (causes.last().0@, causes.last().1 as int));
        lemma_after_causes(counts, store, causes.drop_last(), k);
    }
}

/// The course of the run goes on with a propagation whose conflicts are counted.
proof fn lemma_course_propagated<DP: DependencyProvider>(
    course: Course<DP>,
    before: SolverState<DP>,
    between: SolverState<DP>,
    after: SolverState<DP>,
    log: Seq<Observed<Key<DP>, VersionOf<DP>>>,
    longer: Seq<Observed<Key<DP>, VersionOf<DP>>>,
    causes: Seq<(DP::P, usize)>,
)
    requires
        course.is_at(before.holdings(), log),
        call_ensures(DP::should_cancel, (&course.dp,), Ok(())),
        0 <= course.from <= log.len(),
        log.is_prefix_of(longer),
        forall|i: int| log.len() <= i < longer.len() ==> observer::holds_tree(#[trigger] longer[i]),
        state::ends_scan(
            course.root,
            course.version,
            machine::scan_of(before.state.clauses(), before.state.entries(), before.next@),
            between.state.clauses(),
            between.state.entries(),
            Some(state::causes_met(causes)),
        ),
        after.state == between.state,
        after.added == before.added,
        after.next == before.next,
        after.backtracked == (before.backtracked || causes.len() > 0),
        forall|k: Key<DP>| #[trigger]
            after.conflict_tracker.counts(k) == after_conflicts(
                before.conflict_tracker.counts(k),
                between.state.clauses(),
                causes,
                k,
            ),
    ensures
        course.is_choosing(after.holdings(), longer),
{
    let held = before.holdings();
    let left = after.holdings();
    let met = state::causes_met(causes);
    assert forall|k: Key<DP>| #[trigger] (left.counts)(k) == machine::after_causes(
        (held.counts)(k),
        left.clauses,
        met,
        k,
    ) by {
        lemma_after_causes(before.conflict_tracker.counts(k), left.clauses, causes, k);
        assert(after.conflict_tracker.counts(k) == (left.counts)(k));
    }
    course.has_propagated(held, log, left, longer, met);
}

/// The counts of a package after the conflicts of a propagation.
pub open spec fn after_conflicts<P: Package, V>(
    counts: Counts,
    store: Seq<Clause<P::V, V>>,
    causes: Seq<(P, usize)>,
    k: P::V,
) -> Counts
    decreases causes.len(),
{
    if causes.len() == 0 {
        counts
    } else {
        let last = causes.last();
        tracker::after_conflict(
            after_conflicts(counts, store, causes.drop_last(), k),
            k == last.0@,
            search::mentions(store[last.1 as int], k),
            true,
        )
    }
}

/// More clauses and fewer decisions leave the solver well-formed.
proof fn lemma_wf<DP: DependencyProvider>(before: SolverState<DP>, after: SolverState<DP>, dp: DP)
    requires
        before.wf(dp),
        after.same_problem(before),
        after.state.ok(),
        after.state.rests_on(
            problem::facts(dp, after.root(), after.version(), after.exclusions()),
        ),
        before.state.clauses().is_prefix_of(after.state.clauses()),
        state::selection(after.state.trail@).submap_of(state::selection(before.state.trail@)),
        search::grounded(before.state.entries()) ==> search::grounded(after.state.entries()),
        after.added == before.added,
    ensures
        after.wf(dp),
{
    let store = before.state.clauses();
    let longer = after.state.clauses();
    problem::lemma_keeps_grow(store, longer, problem::root_clause(before.root(), before.version()));
    assert forall|i: int| 0 <= i < after.exclusions().len() implies problem::keeps(
        longer,
        #[trigger] after.exclusions()[i],
    ) by {
        assert(problem::keeps(store, before.exclusions()[i]));
        problem::lemma_keeps_grow(store, longer, after.exclusions()[i]);
    }
    assert forall|i: int| 0 <= i < after.added@.len() implies {
        &&& dp.offers((#[trigger] after.added@[i]).0@, after.added@[i].1)
        &&& problem::recorded(dp, longer, after.added@[i].0@, after.added@[i].1)
    } by {
        assert(dp.offers(before.added@[i].0@, before.added@[i].1));
        problem::lemma_recorded_grow(dp, store, longer, after.added@[i].0@, after.added@[i].1);
    }
    assert forall|k: Key<DP>| #[trigger]
        state::selection(after.state.trail@).dom().contains(k) implies has_pair(
        after.added@,
        k,
        state::selection(after.state.trail@)[k],
    ) by {
        assert(state::selection(before.state.trail@).dom().contains(k));
    }
}

impl<DP: DependencyProvider> SolverState<DP> {
    /// A solver for the root package at the version, with nothing ruled out.
    pub fn new(package: DP::P, version: VersionOf<DP>) -> (r: Self)
        ensures
            r.root() == package@,
            r.version() == version,
            r.exclusions() == Seq::<Clause<Key<DP>, VersionOf<DP>>>::empty(),
            r.holdings() == machine::at_first(package@, version),
            r.polls().len() == 0,
            r.choices().len() == 0,
            r.keeps_record(),
            r.ok(),
            r.decided() == Seq::<(Key<DP>, VersionOf<DP>)>::empty(),
            r.is_fresh(),
            r.is_blank(),
            r.holds_facts(),
            forall|dp: DP| #[trigger] r.is_settled(dp),
            forall|k: Key<DP>| #[trigger] r.counts(k) == (0u32, 0u32, 0u32, 0u32),
            forall|dp: DP| #[trigger] r.agrees(dp),
    {
        let mut state: State<DP::P, DP::VS, DP::M> = State::new();
        let mut terms: Vec<(DP::P, Term<DP::VS>)> = Vec::new();
        terms.push(
            (package.duplicate(), Term::Negative(DP::VS::singleton(version.duplicate()))),
        );
        let ghost clause = problem::root_clause(package@, version);
        let external = External::NotRoot(package.duplicate(), version.duplicate());
        proof {
            assert(term::parts(terms@) =~= clause);
            assert(external.clause() =~= clause);
        }
        let added = state.add(terms, external);
        proof {
            let s = Map::<Key<DP>, VersionOf<DP>>::empty().insert(package@, version);
            assert(s.get(package@) == Some(version));
            assert(term::only(version).contains(Some(version)));
            assert(!clause[0].1.contains(s.get(clause[0].0)));
            assert(!search::violates(clause, s));
            assert(added is Some);
            assert(problem::is_held_as(clause, state.clauses()[0]));
        }
        let next = package.duplicate();
        let r = SolverState {
            state,
            root: package,
            version,
            conflict_tracker: ConflictTracker::new(),
            added: Vec::new(),
            next,
            backtracked: false,
            exclusions: Ghost(Seq::empty()),
            polls: Polls::new(),
        };
        proof {
            assert(state::selection(r.state.trail@) =~= Map::empty()) by {
                assert(r.state.entries().len() == 0);
            }
            assert(r.steps() =~= Seq::empty());
            let first = machine::at_first(package@, version);
            assert(r.holdings().clauses =~= first.clauses);
            assert(r.holdings().trail =~= first.trail);
            assert(r.holdings().added =~= first.added);
            reveal(polls::are_added);
            assert(r.holdings().counts =~= first.counts);
            assert(r.holds_facts());
            assert forall|dp: DP| #[trigger] r.is_settled(dp) by {
                lemma_nothing_to_follow_up(dp, r.state.entries());
            }
            assert forall|dp: DP| #[trigger] r.agrees(dp) by {
                let facts = problem::facts(dp, r.root(), r.version(), r.exclusions());
                assert(facts(external));
                assert(r.state.rests_on(facts));
            }
        }
        r
    }

    /// Rule out that the terms hold together. Returns `false`, and changes nothing, where that
    /// would rule out everything.
    pub fn add_solution_exclusion(&mut self, terms: Vec<(DP::P, Term<DP::VS>)>) -> (r: bool)
        requires
            old(self).ok(),
        ensures
            final(self).ok(),
            final(self).root() == old(self).root(),
            final(self).version() == old(self).version(),
            forall|dp: DP| old(self).agrees(dp) ==> #[trigger] final(self).agrees(dp),
            final(self).decided() == old(self).decided(),
            final(self).steps() == old(self).steps(),
            forall|dp: DP| old(self).is_settled(dp) ==> #[trigger] final(self).is_settled(dp),
            final(self).holdings() == machine::ruling_out(
                old(self).holdings(),
                term::parts(terms@),
            ),
            r <==> machine::tidied(term::parts(terms@)).len() > 0,
            r ==> final(self).exclusions() == old(self).exclusions().push(term::parts(terms@)),
            !r ==> final(self).exclusions() == old(self).exclusions() && forall|s: Selection<DP>|
                #[trigger] search::violates(term::parts(terms@), s),
    {
        let ghost before = *self;
        let ghost clause = term::parts(terms@);
        let external = External::ExcludedSolution { terms: state::duplicate_terms(&terms) };
        match self.state.add(terms, external) {
            None => false,
            Some(i) => {
                self.next = self.state.store[i].terms[0].0.duplicate();
                self.exclusions = Ghost(before.exclusions@.push(clause));
                proof {
                    assert forall|dp: DP| before.agrees(dp) implies #[trigger] self.agrees(dp) by {
                        lemma_exclusion_agrees(before, *self, dp, clause, i as int, external);
                    }
                }
                true
            },
        }
    }
}

proof fn lemma_exclusion_agrees<DP: DependencyProvider>(
    before: SolverState<DP>,
    after: SolverState<DP>,
    dp: DP,
    clause: Clause<Key<DP>, VersionOf<DP>>,
    i: int,
    external: External<DP::P, DP::VS, DP::M>,
)
    requires
        before.agrees(dp),
        after.state.ok(),
        after.root() == before.root(),
        after.version() == before.version(),
        after.exclusions() == before.exclusions().push(clause),
        before.state.clauses().is_prefix_of(after.state.clauses()),
        0 <= i < after.state.clauses().len(),
        problem::is_held_as(clause, after.state.clauses()[i]),
        after.state.trail == before.state.trail,
        after.added == before.added,
        external is ExcludedSolution,
        external.clause() == clause,
        forall|fact: spec_fn(External<DP::P, DP::VS, DP::M>) -> bool|
            before.state.rests_on(fact) && fact(external) ==> #[trigger] after.state.rests_on(fact),
    ensures
        after.agrees(dp),
{
    let fact = problem::facts(dp, before.root(), before.version(), before.exclusions());
    let wider = problem::facts(dp, after.root(), after.version(), after.exclusions());
    let longer = after.exclusions();
    assert(longer[before.exclusions().len() as int] == clause);
    assert forall|e: External<DP::P, DP::VS, DP::M>| #[trigger] fact(e) implies wider(e) by {
        match e {
            External::ExcludedSolution { terms } => {
                let j = choose|j: int|
                    0 <= j < before.exclusions().len() && before.exclusions()[j] == term::parts(
                        terms@,
                    );
                assert(longer[j] == term::parts(terms@));
            },
            _ => {},
        }
    }
    assert(before.state.rests_on(wider)) by {
        assert forall|x: int| 0 <= x < before.state.store@.len() implies (
        #[trigger] before.state.store@[x]).tree.rests_on(wider) by {
            let incompatibility = before.state.store@[x];
            report::lemma_rests_on_wider(&*incompatibility.tree, fact, wider);
        }
    }
    assert(wider(external)) by {
        assert(longer.contains(clause));
    }
    let store = before.state.clauses();
    let all = after.state.clauses();
    problem::lemma_keeps_grow(store, all, problem::root_clause(before.root(), before.version()));
    assert forall|j: int| 0 <= j < longer.len() implies problem::keeps(all, #[trigger] longer[j]) by {
        if j < before.exclusions().len() {
            assert(longer[j] == before.exclusions()[j]);
            problem::lemma_keeps_grow(store, all, longer[j]);
        }
    }
    assert forall|j: int| 0 <= j < after.added@.len() implies {
        &&& dp.offers((#[trigger] after.added@[j]).0@, after.added@[j].1)
        &&& problem::recorded(dp, all, after.added@[j].0@, after.added@[j].1)
    } by {
        assert(dp.offers(before.added@[j].0@, before.added@[j].1));
        problem::lemma_recorded_grow(dp, store, all, after.added@[j].0@, after.added@[j].1);
    }
}

impl<DP: DependencyProvider> SolverState<DP> {
    /// Add a fact of the problem.
    fn add_fact(
        &mut self,
        terms: Vec<(DP::P, Term<DP::VS>)>,
        external: External<DP::P, DP::VS, DP::M>,
        dp: Ghost<DP>,
    )
        requires
            old(self).wf(dp@),
            term::parts(terms@) == external.clause(),
            problem::is_fact(
                dp@,
                old(self).root(),
                old(self).version(),
                old(self).exclusions(),
                external,
            ),
            !search::violates(term::parts(terms@), Map::empty()),
        ensures
            final(self).wf(dp@),
            final(self).holdings() == (Core {
                clauses: old(self).holdings().clauses.push(
                    machine::tidied(term::parts(terms@)),
                ),
                ..old(self).holdings()
            }),
            final(self).same_problem(*old(self)),
            final(self).added == old(self).added,
            final(self).next == old(self).next,
                final(self).polls == old(self).polls,
            final(self).conflict_tracker == old(self).conflict_tracker,
            final(self).state.trail == old(self).state.trail,
            final(self).state.grows_by_facts(old(self).state),
            old(self).state.atoms@.is_prefix_of(final(self).state.atoms@),
            old(self).state.clauses().is_prefix_of(final(self).state.clauses()),
            problem::keeps(final(self).state.clauses(), term::parts(terms@)),
            forall|fact: spec_fn(External<DP::P, DP::VS, DP::M>) -> bool|
                old(self).state.rests_on(fact) && fact(external)
                    ==> #[trigger] final(self).state.rests_on(fact),
    {
        let ghost before = *self;
        let ghost clause = term::parts(terms@);
        let ghost fact = problem::facts(
            dp@,
            before.root(),
            before.version(),
            before.exclusions(),
        );
        let added = self.state.add(terms, external);
        proof {
            assert(added is Some);
            assert(problem::is_held_as(clause, self.state.clauses()[added->0 as int]));
            assert(fact(external));
            assert(before.state.rests_on(fact));
            assert(self.state.rests_on(fact));
            let chosen = state::selection(before.state.trail@);
            assert(chosen.submap_of(chosen));
            lemma_wf(before, *self, dp@);
        }
    }

    /// Add that the package version depends on a version of the other package in the range.
    fn add_requirement(
        &mut self,
        package: &DP::P,
        version: &VersionOf<DP>,
        dependency: &DP::P,
        range: &DP::VS,
        dp: Ghost<DP>,
    )
        requires
            old(self).wf(dp@),
            dp@.offers(package@, *version),
            dp@.requirements(package@, *version) is Some,
            dp@.requirements(package@, *version)->0.contains((dependency@, range@)),
        ensures
            final(self).wf(dp@),
            final(self).holdings() == (Core {
                clauses: old(self).holdings().clauses.push(
                    machine::tidied(problem::requirement_clause(package@, *version, (dependency@, range@))),
                ),
                ..old(self).holdings()
            }),
            final(self).same_problem(*old(self)),
            final(self).added == old(self).added,
            final(self).next == old(self).next,
                final(self).polls == old(self).polls,
            final(self).conflict_tracker == old(self).conflict_tracker,
            final(self).state.trail == old(self).state.trail,
            final(self).state.grows_by_facts(old(self).state),
            old(self).state.atoms@.is_prefix_of(final(self).state.atoms@),
            old(self).state.clauses().is_prefix_of(final(self).state.clauses()),
            problem::keeps(
                final(self).state.clauses(),
                problem::requirement_clause(package@, *version, (dependency@, range@)),
            ),
            forall|fact: spec_fn(External<DP::P, DP::VS, DP::M>) -> bool|
                old(self).state.rests_on(fact) && (forall|e: External<DP::P, DP::VS, DP::M>|
                    problem::is_of_version(e, package@, *version) ==> #[trigger] fact(e))
                    ==> #[trigger] final(self).state.rests_on(fact),
    {
        let ghost clause = problem::requirement_clause(package@, *version, (dependency@, range@));
        let mut terms: Vec<(DP::P, Term<DP::VS>)> = Vec::new();
        terms.push(
            (package.duplicate(), Term::Positive(DP::VS::singleton(version.duplicate()))),
        );
        terms.push((dependency.duplicate(), Term::Negative(range.duplicate())));
        let external = External::FromDependencyOf(
            package.duplicate(),
            DP::VS::singleton(version.duplicate()),
            dependency.duplicate(),
            range.duplicate(),
        );
        proof {
            assert(term::parts(terms@) =~= clause);
            assert(external.clause() =~= clause);
            lemma_owner(package@, *version, clause);
        }
        self.add_fact(terms, external, dp);
    }

    /// Add that the package version is incompatible with the terms.
    fn add_conflict(
        &mut self,
        package: &DP::P,
        version: &VersionOf<DP>,
        others: Vec<IncompatibilityConstraintTerm<DP::P, DP::VS>>,
        reason: DP::M,
        dp: Ghost<DP>,
    )
        requires
            old(self).wf(dp@),
            dp@.offers(package@, *version),
            exists|i: int|
                0 <= i < dp@.conflicts(package@, *version).len() && (#[trigger] dp@.conflicts(
                    package@,
                    *version,
                )[i]) == provider::clause_of(others@),
            problem::is_declared(
                dp@,
                package@,
                *version,
                provider::clause_of(others@),
                reason,
            ),
        ensures
            final(self).wf(dp@),
            final(self).holdings() == (Core {
                clauses: old(self).holdings().clauses.push(
                    machine::tidied(problem::conflict_clause(package@, *version, provider::clause_of(others@))),
                ),
                ..old(self).holdings()
            }),
            final(self).same_problem(*old(self)),
            final(self).added == old(self).added,
            final(self).next == old(self).next,
                final(self).polls == old(self).polls,
            final(self).conflict_tracker == old(self).conflict_tracker,
            final(self).state.trail == old(self).state.trail,
            final(self).state.grows_by_facts(old(self).state),
            old(self).state.atoms@.is_prefix_of(final(self).state.atoms@),
            old(self).state.clauses().is_prefix_of(final(self).state.clauses()),
            problem::keeps(
                final(self).state.clauses(),
                problem::conflict_clause(package@, *version, provider::clause_of(others@)),
            ),
            forall|fact: spec_fn(External<DP::P, DP::VS, DP::M>) -> bool|
                old(self).state.rests_on(fact) && (forall|e: External<DP::P, DP::VS, DP::M>|
                    problem::is_of_version(e, package@, *version) ==> #[trigger] fact(e))
                    ==> #[trigger] final(self).state.rests_on(fact),
    {
        let ghost conflict = provider::clause_of(others@);
        let ghost clause = problem::conflict_clause(package@, *version, conflict);
        let mut terms: Vec<(DP::P, Term<DP::VS>)> = Vec::new();
        terms.push(
            (package.duplicate(), Term::Positive(DP::VS::singleton(version.duplicate()))),
        );
        assert(term::parts(terms@) =~= clause.take(1));
        let mut i: usize = 0;
        while i < others.len()
            invariant
                i <= others@.len(),
                conflict == provider::clause_of(others@),
                clause == problem::conflict_clause(package@, *version, conflict),
                term::parts(terms@) == clause.take(i + 1),
            decreases others@.len() - i,
        {
            let ghost before = term::parts(terms@);
            match &others[i] {
                IncompatibilityConstraintTerm::Positive(p, set) => {
                    terms.push((p.duplicate(), Term::Positive(set.duplicate())));
                },
                IncompatibilityConstraintTerm::Negative(p, set) => {
                    terms.push((p.duplicate(), Term::Negative(set.duplicate())));
                },
            }
            proof {
                assert(term::parts(terms@) =~= before.push(conflict[i as int]));
                assert(clause.take(i + 2) =~= clause.take(i + 1).push(clause[i + 1]));
            }
            i += 1;
        }
        assert(clause.take(i + 1) =~= clause);
        let external = External::Incompatible { terms: state::duplicate_terms(&terms), reason };
        proof {
            let i = choose|i: int|
                0 <= i < dp@.conflicts(package@, *version).len() && (#[trigger] dp@.conflicts(
                    package@,
                    *version,
                )[i]) == conflict;
            assert(external.clause() == problem::conflict_clause(
                package@,
                *version,
                dp@.conflicts(package@, *version)[i],
            ));
            lemma_owner(package@, *version, clause);
        }
        self.add_fact(terms, external, dp);
    }

    /// Add that the package version cannot be used.
    fn add_unavailable(
        &mut self,
        package: &DP::P,
        version: &VersionOf<DP>,
        reason: DP::M,
        dp: Ghost<DP>,
    )
        requires
            old(self).wf(dp@),
            dp@.offers(package@, *version),
            dp@.requirements(package@, *version) is None,
            problem::is_reason(dp@, package@, *version, reason),
        ensures
            final(self).wf(dp@),
            final(self).holdings() == (Core {
                clauses: old(self).holdings().clauses.push(
                    machine::tidied(problem::owner_clause(package@, *version)),
                ),
                ..old(self).holdings()
            }),
            final(self).same_problem(*old(self)),
            final(self).added == old(self).added,
            final(self).next == old(self).next,
                final(self).polls == old(self).polls,
            final(self).conflict_tracker == old(self).conflict_tracker,
            final(self).state.trail == old(self).state.trail,
            final(self).state.grows_by_facts(old(self).state),
            problem::keeps(
                final(self).state.clauses(),
                problem::owner_clause(package@, *version),
            ),
            forall|fact: spec_fn(External<DP::P, DP::VS, DP::M>) -> bool|
                old(self).state.rests_on(fact) && (forall|e: External<DP::P, DP::VS, DP::M>|
                    problem::is_of_version(e, package@, *version) ==> #[trigger] fact(e))
                    ==> #[trigger] final(self).state.rests_on(fact),
    {
        let ghost clause = problem::owner_clause(package@, *version);
        let mut terms: Vec<(DP::P, Term<DP::VS>)> = Vec::new();
        terms.push(
            (package.duplicate(), Term::Positive(DP::VS::singleton(version.duplicate()))),
        );
        let external = External::Custom(
            package.duplicate(),
            DP::VS::singleton(version.duplicate()),
            reason,
        );
        proof {
            assert(term::parts(terms@) =~= clause);
            assert(external.clause() =~= clause);
            lemma_owner(package@, *version, clause);
        }
        self.add_fact(terms, external, dp);
    }

    /// Whether the solver has been told about the package version.
    fn is_added(&self, package: &DP::P, version: &VersionOf<DP>) -> (r: bool)
        ensures
            r == has_pair(self.added@, package@, *version),
    {
        let mut i: usize = 0;
        while i < self.added.len()
            invariant
                i <= self.added@.len(),
                forall|j: int|
                    0 <= j < i ==> !((#[trigger] self.added@[j]).0@ == package@ && self.added@[j].1
                        == *version),
            decreases self.added@.len() - i,
        {
            if self.added[i].0.same(package) && version::same_version(&self.added[i].1, version) {
                return true;
            }
            i += 1;
        }
        false
    }

    /// Note that all about the package version has been added.
    fn note_added(&mut self, package: &DP::P, version: &VersionOf<DP>, dp: Ghost<DP>)
        requires
            old(self).wf(dp@),
            dp@.offers(package@, *version),
            !has_pair(old(self).added@, package@, *version),
            problem::recorded(dp@, old(self).state.clauses(), package@, *version),
        ensures
            final(self).holdings() == (Core {
                added: old(self).holdings().added.push((package@, *version)),
                ..old(self).holdings()
            }),
            final(self).wf(dp@),
            final(self).same_problem(*old(self)),
            final(self).next == old(self).next,
                final(self).polls == old(self).polls,
            final(self).conflict_tracker == old(self).conflict_tracker,
            final(self).state == old(self).state,
            has_pair(final(self).added@, package@, *version),
            not_added(dp@, final(self).added@).len() < not_added(dp@, old(self).added@).len(),
    {
        let ghost before = self.added@;
        let pair = (package.duplicate(), version.duplicate());
        proof {
            lemma_not_added(dp@, before, pair);
        }
        self.added.push(pair);
        proof {
            assert(self.added@[before.len() as int] == pair);
            assert(selected::keyed(self.added@) =~= selected::keyed(before).push((package@, *version)));
            assert forall|i: int| 0 <= i < self.added@.len() implies {
                &&& dp@.offers((#[trigger] self.added@[i]).0@, self.added@[i].1)
                &&& problem::recorded(dp@, self.state.clauses(), self.added@[i].0@, self.added@[i].1)
            } by {
                if i < before.len() {
                    assert(self.added@[i] == before[i]);
                }
            }
            assert forall|k: Key<DP>| #[trigger]
                state::selection(self.state.trail@).dom().contains(k) implies has_pair(
                self.added@,
                k,
                state::selection(self.state.trail@)[k],
            ) by {
                let v = state::selection(self.state.trail@)[k];
                assert(has_pair(before, k, v));
                let i = choose|i: int|
                    0 <= i < before.len() && (#[trigger] before[i]).0@ == k && before[i].1 == v;
                assert(self.added@[i] == before[i]);
            }
        }
    }
}

/// A clause about a selected package version is not violated where nothing is selected.
proof fn lemma_owner<K, V>(k: K, v: V, clause: Clause<K, V>)
    requires
        clause.len() > 0,
        clause[0] == (k, term::only(v)),
    ensures
        !search::violates(clause, Map::empty()),
{
    assert(!clause[0].1.contains(Map::<K, V>::empty().get(clause[0].0)));
}

impl<DP: DependencyProvider> SolverState<DP> {
    /// Decide on the package version.
    fn decide(&mut self, package: &DP::P, version: &VersionOf<DP>, dp: Ghost<DP>)
        requires
            old(self).wf(dp@),
            has_pair(old(self).added@, package@, *version),
            search::mentions(old(self).state.atoms@, package@),
            !search::decided(old(self).state.entries(), package@),
            search::open_states(old(self).state.entries(), package@).contains(Some(*version)),
            old(self).is_plain(dp@) ==> !search::open_states(
                old(self).state.entries(),
                package@,
            ).contains(None),
        ensures
            final(self).holdings() == (Core {
                trail: old(self).holdings().trail.push(
                    machine::decision(old(self).holdings().trail, package@, *version),
                ),
                ..old(self).holdings()
            }),
            final(self).wf(dp@),
            final(self).same_problem(*old(self)),
            final(self).added == old(self).added,
            final(self).next == old(self).next,
                final(self).polls == old(self).polls,
            final(self).conflict_tracker == old(self).conflict_tracker,
            final(self).state.remaining() < old(self).state.remaining(),
            final(self).state.store == old(self).state.store,
            final(self).decided() == old(self).decided().push((package@, *version)),
            search::level(final(self).state.entries()) == final(self).decided().len(),
            final(self).state.entries().len() > 0,
            final(self).state.entries().drop_last() == old(self).state.entries(),
            final(self).state.entries().last().cause is None,
            forall|fact: spec_fn(External<DP::P, DP::VS, DP::M>) -> bool|
                old(self).state.rests_on(fact) && (forall|e: External<DP::P, DP::VS, DP::M>|
                    problem::is_of_version(e, package@, *version) ==> #[trigger] fact(e))
                    ==> #[trigger] final(self).state.rests_on(fact),
    {
        let ghost before = *self;
        proof {
            progress::lemma_level_bound(
                before.state.atoms@,
                before.state.clauses(),
                before.state.entries(),
            );
        }
        self.state.decide(package, version);
        proof {
            state::lemma_decisions(self.state.trail@);
            assert(self.state.clauses() =~= before.state.clauses());
            let fact = problem::facts(dp@, self.root(), self.version(), self.exclusions());
            assert(before.state.rests_on(fact));
            assert forall|k: Key<DP>| #[trigger]
                state::selection(self.state.trail@).dom().contains(k) implies has_pair(
                self.added@,
                k,
                state::selection(self.state.trail@)[k],
            ) by {
                if k != package@ {
                    assert(state::selection(before.state.trail@).dom().contains(k));
                }
            }
        }
    }

    /// Add all that the provider says about the package version, and decide on it unless that is
    /// known to be in vain. Returns the incompatibility that speaks against it.
    #[verifier::rlimit(60)]
    fn add_version(
        &mut self,
        package: &DP::P,
        version: &VersionOf<DP>,
        constraints: DependencyConstraints<DP::P, DP::VS>,
        incompatibilities: IncompatibilityConstraints<DP::P, DP::VS, DP::M>,
        dp: Ghost<DP>,
    ) -> (r: Option<usize>)
        requires
            old(self).wf(dp@),
            dp@.offers(package@, *version),
            !has_pair(old(self).added@, package@, *version),
            dp@.requirements(package@, *version) == Some(provider::requirements_of(constraints@)),
            dp@.conflicts(package@, *version) == provider::clauses(incompatibilities@),
            call_ensures(
                DP::get_incompatibilities,
                (&dp@, package, version),
                Ok(incompatibilities),
            ),
            search::mentions(old(self).state.atoms@, package@),
            !search::decided(old(self).state.entries(), package@),
            search::open_states(old(self).state.entries(), package@).contains(Some(*version)),
            old(self).is_plain(dp@) ==> !search::open_states(
                old(self).state.entries(),
                package@,
            ).contains(None),
        ensures
            ({
                let more = machine::holding(dp@, old(self).holdings(), package@, *version);
                let against = machine::objection(
                    more.clauses,
                    more.trail,
                    old(self).holdings().clauses.len() as int,
                    package@,
                    *version,
                );
                match r {
                    Some(i) => {
                        &&& final(self).holdings() == more
                        &&& old(self).holdings().backtracked
                        &&& against == Some(i as int)
                    },
                    None => {
                        &&& final(self).holdings() == (Core {
                            trail: more.trail.push(
                                machine::decision(more.trail, package@, *version),
                            ),
                            ..more
                        })
                        &&& !(old(self).holdings().backtracked && against is Some)
                    },
                }
            }),
            final(self).wf(dp@),
            final(self).same_problem(*old(self)),
            final(self).next == old(self).next,
                final(self).polls == old(self).polls,
            final(self).conflict_tracker == old(self).conflict_tracker,
            not_added(dp@, final(self).added@).len() < not_added(dp@, old(self).added@).len(),
            final(self).state.grows_by_facts(old(self).state),
            match r {
                Some(i) => {
                    &&& old(self).state.store@.len() <= i < final(self).state.store@.len()
                    &&& final(self).state.trail == old(self).state.trail
                    &&& search::satisfied_given(
                        final(self).state.clauses()[i as int],
                        final(self).state.entries(),
                        package@,
                        Some(*version),
                    )
                },
                None => {
                    &&& final(self).decided() == old(self).decided().push((package@, *version))
                    &&& search::level(final(self).state.entries()) == final(self).decided().len()
                    &&& final(self).state.entries().len() > 0
                    &&& final(self).state.entries().drop_last() == old(self).state.entries()
                    &&& final(self).state.entries().last().cause is None
                },
            },
            forall|fact: spec_fn(External<DP::P, DP::VS, DP::M>) -> bool|
                old(self).state.rests_on(fact) && (forall|e: External<DP::P, DP::VS, DP::M>|
                    problem::is_of_version(e, package@, *version) ==> #[trigger] fact(e))
                    ==> #[trigger] final(self).state.rests_on(fact),
    {
        let ghost start = *self;
        let ghost k = package@;
        let ghost v = *version;
        let ghost requirements = provider::requirements_of(constraints@);
        let ghost conflicts = dp@.conflicts(k, v);
        let ghost held = start.holdings().clauses;
        let first = self.state.store.len();
        let list = constraints.iter();
        let mut i: usize = 0;
        proof {
            assert(start.state.atoms@.is_prefix_of(start.state.atoms@));
            assert(start.state.clauses().is_prefix_of(start.state.clauses()));
            assert(start.state.store@.is_prefix_of(start.state.store@));
            assert(held + machine::requirement_clauses(k, v, requirements, 0) =~= held);
        }
        while i < list.len()
            invariant
                held == start.holdings().clauses,
                self.holdings() == (Core {
                    clauses: held + machine::requirement_clauses(k, v, requirements, i as int),
                    ..start.holdings()
                }),
                self.wf(dp@),
                self.same_problem(start),
                self.added == start.added,
                self.next == start.next,
                self.polls == start.polls,
                self.conflict_tracker == start.conflict_tracker,
                self.state.trail == start.state.trail,
                start.state.atoms@.is_prefix_of(self.state.atoms@),
                start.state.clauses().is_prefix_of(self.state.clauses()),
                self.state.grows_by_facts(start.state),
                forall|fact: spec_fn(External<DP::P, DP::VS, DP::M>) -> bool|
                    start.state.rests_on(fact) && (forall|e: External<DP::P, DP::VS, DP::M>|
                        problem::is_of_version(e, package@, *version) ==> #[trigger] fact(e)) ==> #[trigger]
                    self.state.rests_on(fact),
                list@ == constraints@,
                requirements == provider::requirements_of(constraints@),
                dp@.requirements(k, v) == Some(requirements),
                dp@.offers(k, v),
                k == package@,
                v == *version,
                i <= list@.len(),
                forall|j: int|
                    0 <= j < i ==> problem::keeps(
                        self.state.clauses(),
                        problem::requirement_clause(k, v, #[trigger] requirements[j]),
                    ),
            decreases list@.len() - i,
        {
            let ghost before = *self;
            assert(requirements[i as int] == (list@[i as int].0@, list@[i as int].1@));
            assert(requirements.contains(requirements[i as int]));
            self.add_requirement(package, version, &list[i].0, &list[i].1, dp);
            proof {
                machine::lemma_requirement_clause(held, k, v, requirements, i as int);
                assert forall|j: int| 0 <= j < i + 1 implies problem::keeps(
                    self.state.clauses(),
                    problem::requirement_clause(k, v, #[trigger] requirements[j]),
                ) by {
                    if j < i {
                        problem::lemma_keeps_grow(
                            before.state.clauses(),
                            self.state.clauses(),
                            problem::requirement_clause(k, v, requirements[j]),
                        );
                    }
                }
                state::lemma_grows_by_facts(start.state, before.state, self.state);
                lemma_prefix_chain(
                    start.state.atoms@,
                    before.state.atoms@,
                    self.state.atoms@,
                );
                lemma_prefix_chain(
                    start.state.clauses(),
                    before.state.clauses(),
                    self.state.clauses(),
                );
            }
            i += 1;
        }
        let ghost given = incompatibilities;
        let mut incompatibilities = incompatibilities;
        let ghost mut done: int = 0;
        let ghost demanded = self.holdings().clauses;
        assert(given@.skip(0) =~= given@);
        proof {
            assert(conflicts =~= provider::clauses(incompatibilities@));
            assert(conflicts.skip(0) =~= conflicts);
            assert(demanded + machine::conflict_clauses(k, v, conflicts, 0) =~= demanded);
        }
        while incompatibilities.len() > 0
            invariant
                self.holdings() == (Core {
                    clauses: demanded + machine::conflict_clauses(k, v, conflicts, done),
                    ..start.holdings()
                }),
                self.wf(dp@),
                self.same_problem(start),
                self.added == start.added,
                self.next == start.next,
                self.polls == start.polls,
                self.conflict_tracker == start.conflict_tracker,
                self.state.trail == start.state.trail,
                start.state.atoms@.is_prefix_of(self.state.atoms@),
                start.state.clauses().is_prefix_of(self.state.clauses()),
                self.state.grows_by_facts(start.state),
                forall|fact: spec_fn(External<DP::P, DP::VS, DP::M>) -> bool|
                    start.state.rests_on(fact) && (forall|e: External<DP::P, DP::VS, DP::M>|
                        problem::is_of_version(e, package@, *version) ==> #[trigger] fact(e)) ==> #[trigger]
                    self.state.rests_on(fact),
                conflicts == dp@.conflicts(k, v),
                k == package@,
                v == *version,
                0 <= done <= conflicts.len(),
                dp@.offers(k, v),
                call_ensures(DP::get_incompatibilities, (&dp@, package, version), Ok(given)),
                conflicts == provider::clauses(given@),
                incompatibilities@ == given@.skip(done),
                provider::clauses(incompatibilities@) == conflicts.skip(done),
                forall|j: int|
                    0 <= j < requirements.len() ==> problem::keeps(
                        self.state.clauses(),
                        problem::requirement_clause(k, v, #[trigger] requirements[j]),
                    ),
                forall|j: int|
                    0 <= j < done ==> problem::keeps(
                        self.state.clauses(),
                        problem::conflict_clause(k, v, #[trigger] conflicts[j]),
                    ),
            decreases incompatibilities@.len(),
        {
            let ghost before = *self;
            let ghost rest = incompatibilities@;
            assert(rest.len() == conflicts.skip(done).len());
            assert(provider::clauses(rest)[0] == conflicts.skip(done)[0]);
            assert(conflicts.skip(done)[0] == conflicts[done]);
            let constraint = incompatibilities.remove(0);
            assert(constraint.clause() == conflicts[done]);
            proof {
                assert(rest[0] == given@[done]);
                assert(given@[done] == constraint);
                assert(incompatibilities@ =~= given@.skip(done + 1));
                assert(problem::is_declared(dp@, k, v, conflicts[done], constraint.reason));
            }
            self.add_conflict(package, version, constraint.terms, constraint.reason, dp);
            proof {
                machine::lemma_conflict_clause(demanded, k, v, conflicts, done);
                assert(provider::clauses(incompatibilities@) =~= conflicts.skip(done + 1)) by {
                    assert forall|j: int| 0 <= j < incompatibilities@.len() implies provider::clauses(
                        incompatibilities@,
                    )[j] == conflicts.skip(done + 1)[j] by {
                        assert(provider::clauses(rest)[j + 1] == conflicts.skip(done)[j + 1]);
                    }
                }
                assert forall|j: int| 0 <= j < requirements.len() implies problem::keeps(
                    self.state.clauses(),
                    problem::requirement_clause(k, v, #[trigger] requirements[j]),
                ) by {
                    problem::lemma_keeps_grow(
                        before.state.clauses(),
                        self.state.clauses(),
                        problem::requirement_clause(k, v, requirements[j]),
                    );
                }
                assert forall|j: int| 0 <= j < done + 1 implies problem::keeps(
                    self.state.clauses(),
                    problem::conflict_clause(k, v, #[trigger] conflicts[j]),
                ) by {
                    if j < done {
                        problem::lemma_keeps_grow(
                            before.state.clauses(),
                            self.state.clauses(),
                            problem::conflict_clause(k, v, conflicts[j]),
                        );
                    }
                }
                state::lemma_grows_by_facts(start.state, before.state, self.state);
                lemma_prefix_chain(
                    start.state.atoms@,
                    before.state.atoms@,
                    self.state.atoms@,
                );
                lemma_prefix_chain(
                    start.state.clauses(),
                    before.state.clauses(),
                    self.state.clauses(),
                );
                done = done + 1;
            }
        }
        self.note_added(package, version, dp);
        proof {
            assert(self.holdings() == machine::holding(dp@, start.holdings(), k, v));
            search::lemma_mentions_grow(start.state.atoms@, self.state.atoms@, k);
        }
        let ghost noted = *self;
        if self.backtracked {
            let mut i = first;
            while i < self.state.store.len()
                invariant
                    *self == noted,
                    noted.holdings() == machine::holding(dp@, old(self).holdings(), k, v),
                    old(self).holdings().backtracked,
                    machine::objection(
                        noted.holdings().clauses,
                        noted.holdings().trail,
                        i as int,
                        k,
                        v,
                    ) == machine::objection(
                        noted.holdings().clauses,
                        noted.holdings().trail,
                        old(self).holdings().clauses.len() as int,
                        k,
                        v,
                    ),
                    noted.state.trail == old(self).state.trail,
                    noted.state.grows_by_facts(old(self).state),
                    old(self).state.store@.len() <= i,
                    k == package@,
                    v == *version,
                    forall|fact: spec_fn(External<DP::P, DP::VS, DP::M>) -> bool|
                        old(self).state.rests_on(fact) && (forall|
                            e: External<DP::P, DP::VS, DP::M>,
                        |
                            problem::is_of_version(e, package@, *version) ==> #[trigger] fact(e)) ==> #[trigger]
                        noted.state.rests_on(fact),
                    noted.wf(dp@),
                    noted.same_problem(*old(self)),
                    noted.next == old(self).next,
                noted.polls == old(self).polls,
                    noted.conflict_tracker == old(self).conflict_tracker,
                    not_added(dp@, noted.added@).len() < not_added(dp@, old(self).added@).len(),
                decreases self.state.store@.len() - i,
            {
                if self.state.satisfied_given(i, package, version) {
                    return Some(i);
                }
                i += 1;
            }
        }
        self.decide(package, version, dp);
        None
    }

    /// The priority of the package at this point of the search.
    pub closed spec fn priority(self, dp: DP, k: Key<DP>) -> DP::Priority {
        dp.priority(k, self.state.open_versions(k), self.conflict_tracker.counts(k))
    }

    /// The package is to be decided, and none of those to be decided has a higher priority.
    pub closed spec fn comes_first(self, dp: DP, k: Key<DP>) -> bool {
        &&& self.state.is_pending(k)
        &&& forall|other: Key<DP>| #[trigger]
            self.state.is_pending(other) ==> !priority::is_higher(
                self.priority(dp, other),
                self.priority(dp, k),
            )
    }

    /// The package is to be decided within the range as things stand. Where packages must be
    /// selected, the range is what is left open, and the package one of highest priority if
    /// priorities are ordered.
    pub closed spec fn picks(self, dp: DP, k: Key<DP>, range: Set<VersionOf<DP>>) -> bool {
        &&& self.state.may_choose(k, range)
        &&& !self.state.all_chosen() ==> {
            &&& range == self.state.open_versions(k)
            &&& priority::are_ordered::<DP::Priority>() ==> self.comes_first(dp, k)
        }
    }

    proof fn lemma_stands_above(self, dp: DP, a: Key<DP>, b: Key<DP>)
        ensures
            machine::stands_above(dp, self.holdings().trail, self.holdings().counts)(a, b)
                == priority::is_higher(self.priority(dp, a), self.priority(dp, b)),
    {
        let trail = self.state.entries();
        assert(machine::open_versions(trail, a) =~= self.state.open_versions(a));
        assert(machine::open_versions(trail, b) =~= self.state.open_versions(b));
    }

    /// What to do next. Where packages must be selected, it is the one of highest priority, and of
    /// equal ones the one that was narrowed first.
    fn pick(&self, dependency_provider: &DP) -> (r: Unmet<DP::P, DP::VS>)
        requires
            self.ok(),
        ensures
            machine::comes_next(*dependency_provider, self.holdings(), choice::told_as(r)),
            r matches Unmet::Propagate(p) ==> self.state.calls_for_step(p@)
                && self.state.all_chosen(),
            r matches Unmet::Package(p, set) ==> {
                &&& self.picks(*dependency_provider, p@, set@)
                &&& !search::open_states(self.state.entries(), p@).contains(None)
                    || self.state.is_stuck()
            },
            r is Nothing ==> forall|i: int|
                0 <= i < self.state.clauses().len() ==> !search::violates(
                    #[trigger] self.state.clauses()[i],
                    state::selection(self.state.trail@),
                ),
    {
        let ghost dp = *dependency_provider;
        let ghost above_all = machine::stands_above(
            dp,
            self.holdings().trail,
            self.holdings().counts,
        );
        let ghost list = machine::pending(
            self.state.entries(),
            self.state.entries().len() as int,
        );
        let candidates = self.state.candidates();
        assert(candidates@.len() == list.len()) by {
            assert(choice::candidate_keys(candidates@) == list);
        }
        if candidates.len() == 0 {
            assert(self.state.all_chosen()) by {
                assert forall|k: Key<DP>|
                    !#[trigger] search::open_states(self.state.entries(), k).contains(
                        None,
                    ) implies search::decided(self.state.entries(), k) by {
                    assert(!self.state.is_pending(k));
                }
            }
            return self.state.unmet();
        }
        let ghost found = candidates@;
        let mut best: usize = 0;
        let mut highest = dependency_provider.prioritize(
            &candidates[0].0,
            &candidates[0].1,
            &self.conflict_tracker.get(&candidates[0].0),
        );
        let mut i: usize = 1;
        assert(highest == self.priority(dp, found[0].0@));
        while i < candidates.len()
            invariant
                dp == *dependency_provider,
                found == candidates@,
                best < i <= found.len(),
                forall|j: int|
                    0 <= j < found.len() ==> (#[trigger] found[j]).1@ == self.state.open_versions(
                        found[j].0@,
                    ),
                highest == self.priority(dp, found[best as int].0@),
                list == choice::candidate_keys(found),
                above_all == machine::stands_above(
                    dp,
                    self.holdings().trail,
                    self.holdings().counts,
                ),
                priority::are_comparable::<DP::Priority>() ==> best == machine::leader(
                    above_all,
                    list,
                    i as int,
                ),
                priority::are_ordered::<DP::Priority>() ==> forall|j: int|
                    0 <= j < i ==> !priority::is_higher(
                        self.priority(dp, (#[trigger] found[j]).0@),
                        highest,
                    ),
            decreases found.len() - i,
        {
            let ghost before = highest;
            let priority = dependency_provider.prioritize(
                &candidates[i].0,
                &candidates[i].1,
                &self.conflict_tracker.get(&candidates[i].0),
            );
            assert(priority == self.priority(dp, found[i as int].0@));
            let above = priority > highest;
            proof {
                if priority::are_comparable::<DP::Priority>() {
                    assert(above == priority::is_higher(priority, before));
                    assert(list[i as int] == found[i as int].0@);
                    assert(list[best as int] == found[best as int].0@);
                    self.lemma_stands_above(dp, list[i as int], list[best as int]);
                }
                if priority::are_ordered::<DP::Priority>() {
                    assert(above == priority::is_higher(priority, before));
                    assert forall|j: int| 0 <= j < i && above implies !priority::is_higher(
                        self.priority(dp, (#[trigger] found[j]).0@),
                        priority,
                    ) by {
                        assert(!priority::is_higher(self.priority(dp, found[j].0@), before));
                    }
                }
            }
            if above {
                best = i;
                highest = priority;
            }
            i += 1;
        }
        let ghost chosen = found[best as int].0@;
        proof {
            assert(list[best as int] == chosen);
            assert(machine::open_versions(self.state.entries(), chosen)
                =~= self.state.open_versions(chosen));
            assert(self.state.may_choose(chosen, found[best as int].1@));
            if priority::are_ordered::<DP::Priority>() {
                assert forall|other: Key<DP>| #[trigger]
                    self.state.is_pending(other) implies !priority::is_higher(
                    self.priority(dp, other),
                    self.priority(dp, chosen),
                ) by {
                    let j = choose|j: int| 0 <= j < found.len() && (#[trigger] found[j]).0@ == other;
                    assert(found[j].0@ == other);
                }
            }
        }
        Unmet::Package(candidates[best].0.duplicate(), candidates[best].1.duplicate())
    }

    /// The decided packages at their versions.
    fn extract_solution(&self) -> (r: SelectedDependencies<DP::P, VersionOf<DP>>)
        requires
            self.ok(),
        ensures
            r@ == state::selection(self.state.trail@),
            r.listed() == machine::solution_list(self.holdings().trail),
    {
        let mut pairs: Vec<(DP::P, VersionOf<DP>)> = Vec::new();
        let ghost trail = self.state.trail@;
        let ghost steps = self.state.entries();
        assert(trail.take(0) =~= Seq::empty());
        assert(selected::keyed(pairs@) =~= machine::decided_in_turn(steps, 0));
        let mut i: usize = 0;
        while i < self.state.trail.len()
            invariant
                self.ok(),
                steps == self.state.entries(),
                selected::keyed(pairs@) == machine::decided_in_turn(steps, i as int),
                trail == self.state.trail@,
                i <= trail.len(),
                selected::pairs_map(pairs@) == state::selection(trail.take(i as int)),
            decreases trail.len() - i,
        {
            let ghost before = pairs@;
            assert(trail.take(i + 1).drop_last() =~= trail.take(i as int));
            if self.state.trail[i].cause.is_none() {
                match &self.state.trail[i].version {
                    Some(version) => {
                        pairs.push((self.state.trail[i].package.duplicate(), version.duplicate()));
                        proof {
                            assert(pairs@.drop_last() =~= before);
                            let set = steps[i as int].set;
                            assert(set == term::only(*version));
                            assert(set.contains(Some(*version)));
                            let v = choose|v: VersionOf<DP>| #[trigger] set.contains(Some(v));
                            assert(v == *version);
                            assert(selected::keyed(pairs@) =~= selected::keyed(before).push(
                                (trail[i as int].package@, *version),
                            ));
                        }
                    },
                    None => {},
                }
            }
            i += 1;
        }
        assert(trail.take(i as int) =~= trail);
        SelectedDependencies::from_vec(pairs)
    }
}

proof fn lemma_submap_at<K, V>(part: Map<K, V>, s: Map<K, V>, k: K)
    requires
        part.submap_of(s),
        part.dom().contains(k),
    ensures
        s.dom().contains(k),
        s[k] == part[k],
{
    assert(s.dom().contains(k));
}

pub proof fn lemma_prefix_chain<T>(a: Seq<T>, b: Seq<T>, c: Seq<T>)
    requires
        a.is_prefix_of(b),
        b.is_prefix_of(c),
    ensures
        a.is_prefix_of(c),
{
    assert forall|i: int| 0 <= i < a.len() implies a[i] == c[i] by {
        assert(a[i] == b[i]);
        assert(b[i] == c[i]);
    }
    assert(a =~= c.subrange(0, a.len() as int));
}

impl<DP: DependencyProvider> SolverState<DP> {
    /// Count the conflicts that propagation ran into, each with its package and the place of its
    /// root cause.
    fn count_propagation(&mut self, causes: Vec<(DP::P, usize)>)
        requires
            old(self).ok(),
            forall|i: int|
                0 <= i < causes@.len() ==> (#[trigger] causes@[i]).1 < old(self).state.store@.len(),
        ensures
            final(self).state == old(self).state,
            final(self).root == old(self).root,
            final(self).version == old(self).version,
            final(self).added == old(self).added,
            final(self).next == old(self).next,
                final(self).polls == old(self).polls,
            final(self).exclusions == old(self).exclusions,
            forall|k: Key<DP>| #[trigger]
                final(self).conflict_tracker.counts(k) == after_conflicts(
                    old(self).conflict_tracker.counts(k),
                    old(self).state.clauses(),
                    causes@,
                    k,
                ),
            final(self).backtracked == (old(self).backtracked || causes@.len() > 0),
    {
        let ghost before = *self;
        let ghost store = self.state.clauses();
        let mut i: usize = 0;
        assert(causes@.take(0) =~= Seq::empty());
        while i < causes.len()
            invariant
                before == *old(self),
                store == before.state.clauses(),
                before.ok(),
                i <= causes@.len(),
                self.state == before.state,
                self.root == before.root,
                self.version == before.version,
                self.added == before.added,
                self.next == before.next,
                self.polls == before.polls,
                self.exclusions == before.exclusions,
                self.backtracked == (before.backtracked || i > 0),
                forall|k: Key<DP>| #[trigger]
                    self.conflict_tracker.counts(k) == after_conflicts(
                        before.conflict_tracker.counts(k),
                        store,
                        causes@.take(i as int),
                        k,
                    ),
                forall|i: int|
                    0 <= i < causes@.len() ==> (#[trigger] causes@[i]).1 < self.state.store@.len(),
            decreases causes@.len() - i,
        {
            let cause = causes[i].1;
            assert(causes@[i as int].1 < self.state.store@.len());
            assert(search::clause_ok(self.state.atoms@, store[cause as int]));
            assert(store[cause as int] == term::parts(self.state.store@[cause as int].terms@));
            self.conflict_tracker.count(&causes[i].0, &self.state.store[cause].terms, true);
            proof {
                assert(causes@.take(i + 1).drop_last() =~= causes@.take(i as int));
                assert(causes@.take(i + 1).last() == causes@[i as int]);
            }
            self.backtracked = true;
            i += 1;
        }
        assert(causes@.take(i as int) =~= causes@);
    }

    /// The decided packages solve the problem where no incompatibility is met.
    proof fn lemma_complete(self, dp: DP)
        requires
            self.wf(dp),
            forall|i: int|
                0 <= i < self.state.clauses().len() ==> !search::violates(
                    #[trigger] self.state.clauses()[i],
                    state::selection(self.state.trail@),
                ),
        ensures
            problem::is_solution(
                dp,
                self.root(),
                self.version(),
                state::selection(self.state.trail@),
            ),
            problem::avoids(self.exclusions(), state::selection(self.state.trail@)),
    {
        let s = state::selection(self.state.trail@);
        let store = self.state.clauses();
        let root = problem::root_clause(self.root(), self.version());
        problem::lemma_not_covered(store, root, s);
        assert(s.get(self.root()) == Some(self.version())) by {
            if s.get(self.root()) != Some(self.version()) {
                assert(root[0].1.contains(s.get(root[0].0)));
                assert(search::violates(root, s));
            }
        }
        assert forall|k: Key<DP>| #[trigger] s.dom().contains(k) implies problem::fits(
            dp,
            s,
            k,
        ) by {
            let v = s[k];
            assert(has_pair(self.added@, k, v));
            let i = choose|i: int|
                0 <= i < self.added@.len() && (#[trigger] self.added@[i]).0@ == k
                    && self.added@[i].1 == v;
            assert(problem::recorded(dp, store, k, v));
            problem::lemma_explained_fits(dp, store, k, s);
        }
        assert forall|i: int| 0 <= i < self.exclusions().len() implies !search::violates(
            #[trigger] self.exclusions()[i],
            s,
        ) by {
            problem::lemma_not_covered(store, self.exclusions()[i], s);
        }
    }

    /// A base clause in which only one package may be absent is not violated where the search is
    /// stuck.
    proof fn lemma_stuck_avoids(self, base: Clause<Key<DP>, VersionOf<DP>>)
        requires
            self.state.ok(),
            self.state.is_stuck(),
            problem::is_definite(base),
            problem::keeps(self.state.clauses(), base),
        ensures
            !search::violates(base, state::selection(self.state.trail@)),
    {
        let store = self.state.clauses();
        let s = state::selection(self.state.trail@);
        if search::violates(base, s) {
            let i = choose|i: int|
                0 <= i < store.len() && problem::is_held_as(base, #[trigger] store[i]);
            let k = self.state.lemma_definite_presses(base, i);
            assert(search::violates(store[i], s));
            assert(self.state.pressing(i, k));
        }
    }

    /// The search is never stuck where nothing asks for one of several packages.
    proof fn lemma_not_stuck(self, dp: DP)
        requires
            self.wf(dp),
            self.is_plain(dp),
        ensures
            !self.state.is_stuck(),
    {
        if self.state.is_stuck() {
            let s = state::selection(self.state.trail@);
            let store = self.state.clauses();
            let root = problem::root_clause(self.root(), self.version());
            self.lemma_stuck_avoids(root);
            assert(s.get(self.root()) == Some(self.version())) by {
                if s.get(self.root()) != Some(self.version()) {
                    assert(root[0].1.contains(s.get(root[0].0)));
                    assert(search::violates(root, s));
                }
            }
            assert forall|k: Key<DP>| #[trigger] s.dom().contains(k) implies problem::fits(
                dp,
                s,
                k,
            ) by {
                let v = s[k];
                assert(has_pair(self.added@, k, v));
                let i = choose|i: int|
                    0 <= i < self.added@.len() && (#[trigger] self.added@[i]).0@ == k
                        && self.added@[i].1 == v;
                assert(problem::recorded(dp, store, k, v));
                assert(problem::is_respected(dp, k, v, s)) by {
                    match dp.requirements(k, v) {
                        None => {
                            self.lemma_stuck_avoids(problem::owner_clause(k, v));
                        },
                        Some(requirements) => {
                            assert forall|j: int| 0 <= j < requirements.len() implies !search::violates(
                                problem::requirement_clause(k, v, #[trigger] requirements[j]),
                                s,
                            ) by {
                                self.lemma_stuck_avoids(
                                    problem::requirement_clause(k, v, requirements[j]),
                                );
                            }
                            assert forall|j: int|
                                0 <= j < dp.conflicts(k, v).len() implies !search::violates(
                                problem::conflict_clause(k, v, #[trigger] dp.conflicts(k, v)[j]),
                                s,
                            ) by {
                                let conflict = dp.conflicts(k, v)[j];
                                let clause = problem::conflict_clause(k, v, conflict);
                                assert(problem::is_definite(conflict));
                                assert(problem::is_definite(clause)) by {
                                    assert forall|a: int, b: int|
                                        0 <= a < clause.len() && 0 <= b < clause.len() && (
                                        #[trigger] clause[a]).1.contains(None) && (
                                        #[trigger] clause[b]).1.contains(None) implies clause[a].0
                                        == clause[b].0 by {
                                        assert(!clause[0].1.contains(None));
                                        assert(clause[a] == conflict[a - 1]);
                                        assert(clause[b] == conflict[b - 1]);
                                    }
                                }
                                self.lemma_stuck_avoids(clause);
                            }
                        },
                    }
                }
                problem::lemma_respected_fits(dp, k, s);
            }
            assert(problem::is_solution(dp, self.root(), self.version(), s));
            assert(problem::avoids(self.exclusions(), s));
            let i = choose|i: int| 0 <= i < store.len() && search::violates(#[trigger] store[i], s);
            self.lemma_store_is_avoided(dp, i, s);
        }
    }

    /// No incompatibility is met by a solution that avoids what is ruled out.
    proof fn lemma_store_is_avoided(self, dp: DP, i: int, s: Selection<DP>)
        requires
            self.wf(dp),
            problem::is_solution(dp, self.root(), self.version(), s),
            problem::avoids(self.exclusions(), s),
            0 <= i < self.state.clauses().len(),
        ensures
            !search::violates(self.state.clauses()[i], s),
    {
        let incompatibility = self.state.store@[i];
        assert(incompatibility.justified());
        assert(self.state.clauses()[i] == incompatibility.clause());
        problem::no_solution_is_refuted(
            dp,
            self.root(),
            self.version(),
            self.exclusions(),
            &*incompatibility.tree,
            s,
        );
    }

    /// A part of what is selected that is a solution holds all that the first steps ask for.
    proof fn lemma_needed(self, dp: DP, part: Selection<DP>, n: int, k: Key<DP>)
        requires
            self.wf(dp),
            self.is_plain(dp),
            problem::is_solution(dp, self.root(), self.version(), part),
            part.submap_of(state::selection(self.state.trail@)),
            0 <= n <= self.state.entries().len(),
            !search::open_states(self.state.entries().take(n), k).contains(None),
        ensures
            part.dom().contains(k),
        decreases n,
    {
        let trail = self.state.entries();
        let store = self.state.clauses();
        let atoms = self.state.atoms@;
        let s = state::selection(self.state.trail@);
        if n > 0 {
            let m = n - 1;
            let e = trail[m];
            let before = trail.take(m);
            assert(trail.take(n).drop_last() =~= before);
            assert(trail.take(n).last() == e);
            if e.key != k || !search::open_states(before, k).contains(None) {
                self.lemma_needed(dp, part, m, k);
            } else {
                search::lemma_trail_entry(atoms, store, trail, m);
                assert(e.cause is Some) by {
                    if e.cause is None {
                        assert(!search::open_states(trail.take(m), trail[m].key).contains(None));
                    }
                }
                let c = e.cause->0;
                let clause = store[c];
                assert(search::clause_ok(atoms, store[c]));
                assert(search::at(clause, k).contains(None));
                if !part.dom().contains(k) {
                    assert forall|j: int| 0 <= j < clause.len() implies (
                    #[trigger] clause[j]).1.contains(part.get(clause[j].0)) by {
                        let p = clause[j].0;
                        search::lemma_at(clause, j);
                        if p != k {
                            assert(search::open_states(before, p).subset_of(clause[j].1));
                            if !search::open_states(before, p).contains(None) {
                                self.lemma_needed(dp, part, m, p);
                            }
                            if part.dom().contains(p) {
                                lemma_submap_at(part, s, p);
                                state::lemma_selection(atoms, store, self.state.trail@, p);
                                search::lemma_open_states_shrink(atoms, store, trail, m, p);
                                assert(search::open_states(trail, p).contains(Some(s[p])));
                            }
                        }
                    }
                    assert(search::violates(clause, part));
                    assert(problem::avoids(self.exclusions(), part));
                    self.lemma_store_is_avoided(dp, c, part);
                }
            }
        }
    }

    /// Nothing can be left out of what is selected, where nothing asks for one of several packages.
    proof fn lemma_minimal(self, dp: DP)
        requires
            self.wf(dp),
            self.is_plain(dp),
        ensures
            problem::is_minimal(
                dp,
                self.root(),
                self.version(),
                state::selection(self.state.trail@),
            ),
    {
        let trail = self.state.entries();
        let s = state::selection(self.state.trail@);
        assert forall|part: Selection<DP>| #[trigger]
            problem::is_solution(dp, self.root(), self.version(), part) && part.submap_of(
                s,
            ) implies part == s by {
            assert(trail.take(trail.len() as int) =~= trail);
            assert forall|k: Key<DP>| #[trigger] s.dom().contains(k) implies part.dom().contains(
                k,
            ) by {
                state::lemma_selection(
                    self.state.atoms@,
                    self.state.clauses(),
                    self.state.trail@,
                    k,
                );
                self.lemma_needed(dp, part, trail.len() as int, k);
            }
            assert(part =~= s);
        }
    }

    /// What is told of the decisions accounts for the solution.
    proof fn lemma_told_solution<O: SolverObserver<DP::P, DP::VS, DP::M>>(
        self,
        dp: DP,
        made: Seq<(Key<DP>, VersionOf<DP>)>,
        before: Seq<Observed<Key<DP>, VersionOf<DP>>>,
        after: Seq<Observed<Key<DP>, VersionOf<DP>>>,
    )
        requires
            self.wf(dp),
            tells::<DP, O>(dp, made, self.decided(), before, after),
        ensures
            is_accounted_for(made, before, after, state::selection(self.state.trail@)),
            forall|k: Key<DP>| #[trigger]
                state::selection(self.state.trail@).dom().contains(k) ==> self.decided().contains(
                    (k, state::selection(self.state.trail@)[k]),
                ),
            observer::always_asks::<DP::P, DP::VS, DP::M, O>() && observer::levels_fit(
                before.len() as int,
                after,
            ) ==> is_left(made, before, after, state::selection(self.state.trail@)),
    {
        reveal(tells);
        let s = state::selection(self.state.trail@);
        let left = self.decided();
        assert forall|k: Key<DP>| #[trigger] s.dom().contains(k) implies made.contains((k, s[k]))
            || observer::is_committed(before, after, k, s[k]) by {
            let d = state::lemma_selected_is_decided(self.state.trail@, k);
            assert(left[d] == (k, s[k]));
            assert(is_kept(made, left, d) || is_told_of(before, after, left[d], d + 1));
            if is_kept(made, left, d) {
                assert(made[d] == (k, s[k]));
            } else {
                let i = choose|i: int|
                    before.len() <= i < after.len() && #[trigger] observer::stands(
                        after,
                        i,
                        left[d].0,
                        left[d].1,
                    ) && after[i]->Decision_2 == observer::level_told(d + 1);
                assert(observer::stands(after, i, k, s[k]));
            }
        }
        assert forall|k: Key<DP>| #[trigger] s.dom().contains(k) implies left.contains(
            (k, s[k]),
        ) by {
            let d = state::lemma_selected_is_decided(self.state.trail@, k);
            assert(left[d] == (k, s[k]));
        }
        assert forall|k: Key<DP>, v: VersionOf<DP>| #[trigger] left.contains((k, v)) <==> s.get(k)
            == Some(v) by {
            if left.contains((k, v)) {
                let d = choose|d: int| 0 <= d < left.len() && left[d] == (k, v);
                state::lemma_decided_is_selected(
                    self.state.atoms@,
                    self.state.clauses(),
                    self.state.trail@,
                    d,
                );
            }
            if s.get(k) == Some(v) {
                let d = state::lemma_selected_is_decided(self.state.trail@, k);
                assert(left[d] == (k, v));
            }
        }
    }

    /// One event more leaves the observer told of what it was told.
    proof fn lemma_still_told(
        self,
        fresh: bool,
        before: Seq<Observed<Key<DP>, VersionOf<DP>>>,
        after: Seq<Observed<Key<DP>, VersionOf<DP>>>,
        o: Observed<Key<DP>, VersionOf<DP>>,
    )
        requires
            fresh ==> self.state.rests_on(problem::told_facts(before, after)),
            fresh ==> problem::causes_are_told::<DP::P, DP::VS, DP::M>(before, after),
            before.len() <= after.len(),
            !observer::holds_tree(o),
        ensures
            fresh ==> self.state.rests_on(problem::told_facts(before, after.push(o))),
            fresh ==> problem::causes_are_told::<DP::P, DP::VS, DP::M>(before, after.push(o)),
    {
        if fresh {
            let longer = after.push(o);
            assert(observer::causes_rest_on(
                after,
                longer,
                problem::told_facts::<DP::P, DP::VS, DP::M>(before, after),
            ));
            lemma_causes_told::<DP::P, DP::VS, DP::M>(before, after, longer);
            assert(after =~= longer.subrange(0, after.len() as int));
            lemma_told_more::<DP::P, DP::VS, DP::M>(before, after, longer);
            lemma_rests_on_more(
                self.state,
                problem::told_facts(before, after),
                problem::told_facts(before, longer),
            );
        }
    }

    /// Run the solver until it has found a solution that avoids what is ruled out, or a proof that
    /// there is none, or the provider has raised an error.
    #[verifier::rlimit(100)]
    pub fn run_until_solution<O: SolverObserver<DP::P, DP::VS, DP::M>>(
        &mut self,
        dependency_provider: &DP,
        observer: &mut O,
    ) -> (r: Result<SelectedDependencies<DP::P, VersionOf<DP>>, PubGrubError<DP>>)
        requires
            old(self).wf(*dependency_provider),
            old(self).is_settled(*dependency_provider),
        ensures
            final(self).wf(*dependency_provider),
            r is Ok ==> final(self).is_settled(*dependency_provider),
            final(self).same_problem(*old(self)),
            observer::follows_path::<DP::P, DP::VS, DP::M, O>(
                old(observer).log(),
                final(observer).log(),
            ),
            problem::are_answers(
                *dependency_provider,
                old(observer).log(),
                final(observer).log(),
            ),
            are_first_choices::<DP, O>(
                *dependency_provider,
                *old(self),
                old(observer).log(),
                final(observer).log(),
            ),
            observer::causes_rest_on(
                old(observer).log(),
                final(observer).log(),
                problem::facts(
                    *dependency_provider,
                    old(self).root(),
                    old(self).version(),
                    old(self).exclusions(),
                ),
            ),
            is_explained::<DP, O>(
                *dependency_provider,
                *old(self),
                old(observer).log(),
                final(observer).log(),
            ),
            is_retraceable::<DP, O>(
                *dependency_provider,
                *old(self),
                old(observer).log(),
                final(observer).log(),
            ),
            path::is_walked::<DP::P, DP::VS, DP::M, O>(
                old(self).decided(),
                final(self).decided(),
                old(observer).log(),
                final(observer).log(),
            ),
            old(self).is_fresh() ==> problem::causes_are_told::<DP::P, DP::VS, DP::M>(
                old(observer).log(),
                final(observer).log(),
            ),
            r is Ok ==> counts_setbacks::<DP, O>(
                *dependency_provider,
                *old(self),
                *final(self),
                old(observer).log(),
                final(observer).log(),
            ),
            error::heeds_cancellation(*dependency_provider, r),
            polls::are_fresh_choices(
                *dependency_provider,
                old(self).choices(),
                final(self).choices(),
                old(observer).log(),
                final(observer).log(),
                r,
            ),
            old(self).keeps_record() ==> polls::asks_once(final(self).retrieved()) && (r is Ok
                ==> final(self).keeps_record()),
            polls::are_in_time(
                *dependency_provider,
                old(self).polls(),
                final(self).polls(),
                old(observer).log(),
                final(observer).log(),
                r,
            ),
            error::may_go_on(*dependency_provider) || final(observer).log() == old(observer).log(),
            old(self).takes_course(*dependency_provider, old(observer).log()).has_ended(
                final(self).holdings(),
                final(observer).log(),
                outcome(r),
            ),
            match r {
                Ok(solution) => {
                    &&& solution@ == machine::selected(final(self).holdings().trail)
                    &&& solution.listed() == machine::solution_list(final(self).holdings().trail)
                    &&& observer::at_rest(old(observer).log(), final(observer).log())
                    &&& forall|k: Key<DP>| #[trigger]
                        solution@.dom().contains(k) ==> final(self).decided().contains(
                            (k, solution@[k]),
                        )
                    &&& is_accounted_for(
                        old(self).decided(),
                        old(observer).log(),
                        final(observer).log(),
                        solution@,
                    )
                    &&& observer::always_asks::<DP::P, DP::VS, DP::M, O>() && observer::levels_fit(
                        old(observer).log().len() as int,
                        final(observer).log(),
                    ) ==> is_left(
                        old(self).decided(),
                        old(observer).log(),
                        final(observer).log(),
                        solution@,
                    )
                    &&& problem::is_solution(
                        *dependency_provider,
                        old(self).root(),
                        old(self).version(),
                        solution@,
                    )
                    &&& problem::avoids(old(self).exclusions(), solution@)
                    &&& old(self).is_plain(*dependency_provider) ==> problem::is_minimal(
                        *dependency_provider,
                        old(self).root(),
                        old(self).version(),
                        solution@,
                    )
                },
                Err(error) => {
                    &&& {
                        ||| error.proves_no_solution(
                            *dependency_provider,
                            old(self).root(),
                            old(self).version(),
                            old(self).exclusions(),
                        )
                        ||| error.raised_by(*dependency_provider) && dependency_provider.may_fail()
                    }
                    &&& old(self).is_fresh() && error is NoSolution
                        ==> error->NoSolution_0.rests_on(
                        problem::told_facts(old(observer).log(), final(observer).log()),
                    )
                },
            },
    {
        let ghost start = *self;
        let ghost dp = *dependency_provider;
        let ghost log = observer.log();
        let ghost fact = problem::facts(dp, start.root(), start.version(), start.exclusions());
        let ghost mut pending = false;
        let ghost made = self.decided();
        let ghost course = start.takes_course(dp, log);
        proof {
            course.begins(log);
            polls::lemma_not_asked(self.polls@, log);
            polls::lemma_no_choices::<DP>(self.polls.chosen(), log);
            assert(self.polls.chosen() =~= self.polls.chosen().subrange(
                0,
                self.polls.chosen().len() as int,
            ));
            assert(self.polls@ =~= self.polls@.subrange(0, self.polls@.len() as int));
            lemma_follows_up(dp, self.state.entries(), self.next@);
            lemma_nothing_told::<DP, O>(dp, start, log);
            if start.is_fresh() {
                lemma_told_facts(self.state, log, log);
            }
        }
        loop
            invariant
                dp == *dependency_provider,
                start == *old(self),
                log == old(observer).log(),
                fact == problem::facts(dp, start.root(), start.version(), start.exclusions()),
                self.wf(dp),
                self.same_problem(start),
                made == start.decided(),
                course == start.takes_course(dp, log),
                course.is_at(self.holdings(), observer.log()),
                polls::keep_up(start.polls@.len() as int, self.polls@, log, observer.log()),
                start.polls@.is_prefix_of(self.polls@),
                polls::are_choices::<DP>(
                    start.polls.chosen().len() as int,
                    self.polls.chosen(),
                    log,
                    observer.log(),
                ),
                start.polls.chosen().is_prefix_of(self.polls.chosen()),
                forall|c: int|
                    start.polls.chosen().len() <= c < self.polls.chosen().len()
                        ==> polls::is_answered(dp, #[trigger] self.polls.chosen()[c]),
                start.keeps_record() ==> self.keeps_record(),
                forall|j: int|
                    start.polls@.len() <= j < self.polls@.len() ==> call_ensures(
                        DP::should_cancel,
                        (&dp,),
                        (#[trigger] self.polls@[j]).1,
                    ),
                tells::<DP, O>(dp, made, self.decided(), log, observer.log()),
                observer::follows_path::<DP::P, DP::VS, DP::M, O>(log, observer.log()),
                problem::are_answers(dp, log, observer.log()),
                are_first_choices::<DP, O>(
                    dp,
                    start,
                    log,
                    observer.log(),
                ),
                counts_setbacks::<DP, O>(dp, start, *self, log, observer.log()),
                is_traced::<DP, O>(dp, start, *self, log, observer.log()),
                is_explained::<DP, O>(dp, start, log, observer.log()),
                is_retraceable::<DP, O>(dp, start, log, observer.log()),
                has_turned_down::<DP, O>(dp, start, log, observer.log()),
                observer::causes_rest_on(log, observer.log(), fact),
                observer::at_rest(log, observer.log()),
                start.is_fresh() ==> self.state.rests_on(
                    problem::told_facts(log, observer.log()),
                ),
                start.is_fresh() ==> problem::causes_are_told::<DP::P, DP::VS, DP::M>(
                    log,
                    observer.log(),
                ),
                error::may_go_on(dp) || observer.log() == log,
                pending ==> self.state.calls_for_step(self.next@),
                follows_up(dp, self.state.entries(), Some(self.next@)),
            decreases
                not_added(dp, self.added@).len(),
                2 * self.state.remaining() + if pending {
                    0int
                } else {
                    1int
                },
        {
            let ghost answers = self.polls@;
            let ghost waiting = *self;
            let answer = self.polls.ask(dependency_provider, &*observer);
            proof {
                assert(self.polls@.drop_last() =~= answers);
                lemma_asked_more(start, waiting, *self, dp, answers);
                lemma_counts_same::<DP, O>(
                    dp,
                    start,
                    waiting,
                    *self,
                    log,
                    observer.log(),
                    rejected(dp, log.len() as int, observer.log()),
                );
                lemma_traced_same::<DP, O>(dp, start, waiting, *self, log, observer.log());
            }
            if let Err(source) = answer {
                proof {
                    lemma_run_keeps_up(
                        dp,
                        start,
                        *self,
                        log,
                        observer.log(),
                        Err::<SelectedDependencies<DP::P, VersionOf<DP>>, PubGrubError<DP>>(
                            PubGrubError::ErrorInShouldCancel(source),
                        ),
                    );
                    polls::lemma_cancelled::<DP, SelectedDependencies<DP::P, VersionOf<DP>>>(
                        dp,
                        start.polls@,
                        answers,
                        source,
                        log,
                        observer.log(),
                    );
                    course.is_cancelled(self.holdings(), observer.log(), source);
                    lemma_knows_decisions::<DP, O>(dp, made, self.decided(), log, observer.log());
                }
                return Err(PubGrubError::ErrorInShouldCancel(source));
            }
            assert(error::may_go_on(dp)) by {
                assert(answer == Ok::<(), DP::Err>(answer->Ok_0));
            }
            proof {
                polls::lemma_asked(
                    start.polls@.len() as int,
                    answers,
                    answer,
                    log,
                    observer.log(),
                );
            }
            let ghost asked = self.polls@;
            let ghost before = *self;
            let ghost told = observer.log();
            let propagated = self.state.unit_propagation(
                &self.next,
                &self.root,
                &self.version,
                observer,
            );
            proof {
                polls::lemma_choices_later::<DP>(
                    start.polls.chosen().len() as int,
                    self.polls.chosen(),
                    log,
                    told,
                    observer.log(),
                );
                polls::lemma_asked_propagation(
                    start.polls@.len() as int,
                    asked,
                    log,
                    told,
                    observer.log(),
                );
                assert(before.state.rests_on(fact));
                lemma_tells_propagation::<DP, O>(
                    dp,
                    made,
                    before.decided(),
                    self.decided(),
                    log,
                    told,
                    observer.log(),
                    start,
                );
                lemma_first_choices::<DP, O>(
                    dp,
                    start,
                    log,
                    told,
                    observer.log(),
                );
                observer::lemma_causes_chain(log, told, observer.log(), fact);
                lemma_traced_propagation::<DP, O>(
                    dp,
                    start,
                    before,
                    *self,
                    log,
                    told,
                    observer.log(),
                );
                if start.is_fresh() {
                    assert(self.state.rests_on(problem::told_facts(log, told)));
                    assert(before.state.rests_on(problem::told_facts(log, told)));
                    lemma_causes_told::<DP::P, DP::VS, DP::M>(log, told, observer.log());
                    lemma_told_more::<DP::P, DP::VS, DP::M>(log, told, observer.log());
                    lemma_rests_on_more(
                        self.state,
                        problem::told_facts(log, told),
                        problem::told_facts(log, observer.log()),
                    );
                }
                assert(before.state.rests_on(fact));
                assert(self.state.rests_on(fact));
                lemma_wf(before, *self, dp);
            }
            let causes = match propagated {
                Ok(causes) => causes,
                Err(tree) => {
                    proof {
                        lemma_run_keeps_up(
                            dp,
                            start,
                            *self,
                            log,
                            observer.log(),
                            Err::<SelectedDependencies<DP::P, VersionOf<DP>>, PubGrubError<DP>>(
                                PubGrubError::NoSolution(tree),
                            ),
                        );
                        polls::lemma_not_cancelled(
                            dp,
                            start.polls@,
                            asked,
                            log,
                            observer.log(),
                            Err::<
                                SelectedDependencies<DP::P, VersionOf<DP>>,
                                PubGrubError<DP>,
                            >(PubGrubError::NoSolution(tree)),
                        );
                        course.has_failed(
                            before.holdings(),
                            told,
                            self.holdings(),
                            observer.log(),
                        );
                        lemma_knows_decisions::<DP, O>(
                            dp,
                            made,
                            self.decided(),
                            log,
                            observer.log(),
                        );
                        if start.is_fresh() {
                            assert(before.state.rests_on(problem::told_facts(log, told)));
                            assert(tree.rests_on(problem::told_facts(log, told)));
                            lemma_tree_rests_on_more(
                                &*tree,
                                problem::told_facts(log, told),
                                problem::told_facts(log, observer.log()),
                            );
                        }
                    }
                    return Err(PubGrubError::NoSolution(tree));
                },
            };
            let ghost propagated_state = *self;
            let ghost conflicts = causes@;
            proof {
                let base = choose|base: int| #[trigger]
                    self.state.has_caught_up(before.state.entries(), before.next@, base);
                lemma_follow_up(dp, before, *self, base);
            }
            let ghost trail = self.state.entries();
            self.count_propagation(causes);
            proof {
                lemma_course_propagated(
                    course,
                    before,
                    propagated_state,
                    *self,
                    told,
                    observer.log(),
                    conflicts,
                );
                lemma_traced_same::<DP, O>(dp, start, propagated_state, *self, log, observer.log());
                lemma_counts_propagation::<DP, O>(
                    dp,
                    start,
                    before,
                    *self,
                    conflicts,
                    log,
                    told,
                    observer.log(),
                );
                assert(self.state.rests_on(fact));
                let chosen = state::selection(self.state.trail@);
                assert(chosen.submap_of(chosen));
                assert(self.state.clauses().is_prefix_of(self.state.clauses()));
                lemma_wf(propagated_state, *self, dp);
            }
            let (package, range) = match self.pick(dependency_provider) {
                Unmet::Nothing => {
                    proof {
                        course.has_solved(self.holdings(), observer.log());
                        self.state.lemma_selected();
                        self.lemma_complete(dp);
                        if self.is_plain(dp) {
                            self.lemma_minimal(dp);
                        }
                        lemma_knows_decisions::<DP, O>(
                            dp,
                            made,
                            self.decided(),
                            log,
                            observer.log(),
                        );
                        self.lemma_told_solution::<O>(dp, made, log, observer.log());
                    }
                    let solution = self.extract_solution();
                    proof {
                        lemma_run_keeps_up(
                            dp,
                            start,
                            *self,
                            log,
                            observer.log(),
                            Ok::<SelectedDependencies<DP::P, VersionOf<DP>>, PubGrubError<DP>>(
                                solution,
                            ),
                        );
                        polls::lemma_not_cancelled(
                            dp,
                            start.polls@,
                            asked,
                            log,
                            observer.log(),
                            Ok::<SelectedDependencies<DP::P, VersionOf<DP>>, PubGrubError<DP>>(
                                solution,
                            ),
                        );
                    }
                    return Ok(solution);
                },
                Unmet::Propagate(package) => {
                    let ghost before = *self;
                    self.next = package;
                    proof {
                        course.is_to_propagate(
                            before.holdings(),
                            observer.log(),
                            self.next@,
                            self.holdings(),
                        );
                        lemma_follows_up(dp, trail, self.next@);
                        pending = true;
                        lemma_counts_same::<DP, O>(
                            dp,
                            start,
                            before,
                            *self,
                            log,
                            observer.log(),
                            rejected(dp, log.len() as int, observer.log()),
                        );
                        lemma_traced_same::<DP, O>(dp, start, before, *self, log, observer.log());
                        assert(self.state.rests_on(fact));
                        let chosen = state::selection(self.state.trail@);
                        assert(chosen.submap_of(chosen));
                        assert(self.state.clauses().is_prefix_of(self.state.clauses()));
                        lemma_wf(before, *self, dp);
                    }
                    continue;
                },
                Unmet::Package(package, range) => (package, range),
            };
            proof {
                if self.is_plain(dp) {
                    self.lemma_not_stuck(dp);
                }
            }
            let ghost before = *self;
            let ghost choosing = self.holdings();
            let ghost untold = observer.log();
            self.next = package.duplicate();
            proof {
                pending = false;
                lemma_counts_same::<DP, O>(
                    dp,
                    start,
                    before,
                    *self,
                    log,
                    observer.log(),
                    rejected(dp, log.len() as int, observer.log()),
                );
                lemma_traced_same::<DP, O>(dp, start, before, *self, log, observer.log());
                assert(self.state.rests_on(fact));
                let chosen = state::selection(self.state.trail@);
                assert(chosen.submap_of(chosen));
                assert(self.state.clauses().is_prefix_of(self.state.clauses()));
                lemma_wf(before, *self, dp);
            }
            let event = SolverEvent::PackageChoice { package: &package, allowed: &range };
            proof {
                polls::lemma_asked_choice(
                    start.polls@.len() as int,
                    asked,
                    log,
                    observer.log(),
                    event.observed(),
                );
                lemma_tells_choice::<DP, O>(
                    dp,
                    made,
                    self.decided(),
                    log,
                    observer.log(),
                    event.observed(),
                );
                self.lemma_still_told(start.is_fresh(), log, observer.log(), event.observed());
                let longer = observer.log().push(event.observed());
                assert(observer.log() =~= longer.subrange(0, observer.log().len() as int));
                assert(longer.take(observer.log().len() as int) =~= observer.log());
                assert(before.picks(dp, package@, range@));
                observer::lemma_causes_push(log, observer.log(), event.observed(), fact);
                lemma_traced_choice::<DP, O>(
                    dp,
                    start,
                    before,
                    log,
                    observer.log(),
                    package@,
                    range@,
                );
                lemma_traced_same::<DP, O>(dp, start, before, *self, log, longer);
                lemma_counts_push::<DP, O>(
                    dp,
                    start,
                    *self,
                    log,
                    observer.log(),
                    rejected(dp, log.len() as int, observer.log()),
                    event.observed(),
                );
                lemma_first_choice::<DP, O>(
                    dp,
                    start,
                    before,
                    log,
                    observer.log(),
                    package@,
                    range@,
                );
                lemma_first_choices::<DP, O>(
                    dp,
                    start,
                    log,
                    observer.log(),
                    longer,
                );
            }
            observer.on_event(event);
            let ghost waiting = *self;
            let ghost earlier_choices = self.polls.chosen();
            let answered = self.polls.choose_version(
                dependency_provider,
                &package,
                &range,
                &*observer,
            );
            let ghost choice = Choice {
                told: observer.log().len() as int,
                package: package@,
                range: range@,
                answer: answered,
            };
            proof {
                polls::lemma_choice_kept(
                    dp,
                    start.polls.chosen(),
                    earlier_choices,
                    choice,
                    package,
                    range,
                );
                lemma_counts_same::<DP, O>(
                    dp,
                    start,
                    waiting,
                    *self,
                    log,
                    observer.log(),
                    rejected(dp, log.len() as int, observer.log()),
                );
                lemma_traced_same::<DP, O>(dp, start, waiting, *self, log, observer.log());
            }
            let decision = match answered {
                Ok(decision) => decision,
                Err(source) => {
                    assert(error::fails_to_choose(dp, package@, source));
                    proof {
                        polls::lemma_failed_choice(
                            dp,
                            start.polls.chosen(),
                            earlier_choices,
                            choice,
                            log,
                            untold,
                            Err::<
                                SelectedDependencies<DP::P, VersionOf<DP>>,
                                PubGrubError<DP>,
                            >(PubGrubError::ErrorChoosingVersion { package, source }),
                        );
                        if start.keeps_record() {
                            reveal(polls::are_added);
                        }
                        polls::lemma_not_cancelled(
                            dp,
                            start.polls@,
                            asked,
                            log,
                            observer.log(),
                            Err::<
                                SelectedDependencies<DP::P, VersionOf<DP>>,
                                PubGrubError<DP>,
                            >(PubGrubError::ErrorChoosingVersion { package, source }),
                        );
                        course.fails_choice(
                            choosing,
                            untold,
                            package,
                            range,
                            source,
                            self.holdings(),
                            observer.log(),
                        );
                        lemma_knows_decisions::<DP, O>(
                            dp,
                            made,
                            self.decided(),
                            log,
                            observer.log(),
                        );
                    }
                    return Err(PubGrubError::ErrorChoosingVersion { package, source });
                },
            };
            assert(problem::may_answer(dp, package@, range@, decision));
            let version = match decision {
                None => {
                    let event = SolverEvent::NoVersion { package: &package, allowed: &range };
                    proof {
                        polls::lemma_asked_version(
                            start.polls@.len() as int,
                            asked,
                            log,
                            observer.log(),
                            event.observed(),
                        );
                        lemma_tells_choice::<DP, O>(
                            dp,
                            made,
                            self.decided(),
                            log,
                            observer.log(),
                            event.observed(),
                        );
                        observer::lemma_causes_push(log, observer.log(), event.observed(), fact);
                        lemma_traced_push::<DP, O>(
                            dp,
                            start,
                            *self,
                            log,
                            observer.log(),
                            event.observed(),
                        );
                        lemma_counts_push::<DP, O>(
                            dp,
                            start,
                            *self,
                            log,
                            observer.log(),
                            rejected(dp, log.len() as int, observer.log()),
                            event.observed(),
                        );
                        self.lemma_still_told(
                            start.is_fresh(),
                            log,
                            observer.log(),
                            event.observed(),
                        );
                        let longer = observer.log().push(event.observed());
                        assert(observer.log() =~= longer.subrange(0, observer.log().len() as int));
                        lemma_first_choices::<DP, O>(
                            dp,
                            start,
                            log,
                            observer.log(),
                            longer,
                        );
                    }
                    observer.on_event(event);
                    let ghost before = *self;
                    self.state.add_no_versions(&package, &range);
                    proof {
                        polls::lemma_choice_made::<DP>(
                            start.polls.chosen().len() as int,
                            earlier_choices,
                            choice,
                            log,
                            untold,
                            event.observed(),
                        );
                        course.finds_no_version(
                            choosing,
                            untold,
                            package,
                            range,
                            self.holdings(),
                            observer.log(),
                        );
                        lemma_follows_up(dp, trail, self.next@);
                        pending = true;
                        lemma_counts_same::<DP, O>(
                            dp,
                            start,
                            before,
                            *self,
                            log,
                            observer.log(),
                            rejected(dp, log.len() as int, observer.log()),
                        );
                        lemma_traced_same::<DP, O>(dp, start, before, *self, log, observer.log());
                        assert(before.state.rests_on(fact));
                        assert forall|p: DP::P, vs: DP::VS|
                            p@ == package@ && vs@ == range@ implies #[trigger] fact(
                            External::NoVersions(p, vs),
                        ) by {}
                        assert(self.state.rests_on(fact));
                        if start.is_fresh() {
                            let told = problem::told_facts(log, observer.log());
                            assert(before.state.rests_on(told));
                            assert forall|p: DP::P, vs: DP::VS|
                                p@ == package@ && vs@ == range@ implies #[trigger] told(
                                External::NoVersions(p, vs),
                            ) by {
                                assert(observer.log()[observer.log().len() - 1]
                                    == Observed::<Key<DP>, VersionOf<DP>>::NoVersion(p@, vs@));
                            }
                            assert(self.state.rests_on(told));
                        }
                        let chosen = state::selection(self.state.trail@);
                        assert(chosen.submap_of(chosen));
                        lemma_wf(before, *self, dp);
                    }
                    continue;
                },
                Some(version) => version,
            };
            let ghost before_choice = observer.log();
            let event = SolverEvent::VersionChoice {
                package: &package,
                version: &version,
                allowed: &range,
            };
            proof {
                polls::lemma_asked_version(
                    start.polls@.len() as int,
                    asked,
                    log,
                    observer.log(),
                    event.observed(),
                );
                lemma_tells_choice::<DP, O>(
                    dp,
                    made,
                    self.decided(),
                    log,
                    observer.log(),
                    event.observed(),
                );
                observer::lemma_causes_push(log, observer.log(), event.observed(), fact);
                lemma_traced_push::<DP, O>(
                    dp,
                    start,
                    *self,
                    log,
                    observer.log(),
                    event.observed(),
                );
                lemma_counts_push::<DP, O>(
                    dp,
                    start,
                    *self,
                    log,
                    observer.log(),
                    rejected(dp, log.len() as int, observer.log()),
                    event.observed(),
                );
                self.lemma_still_told(start.is_fresh(), log, observer.log(), event.observed());
                let longer = observer.log().push(event.observed());
                assert(observer.log() =~= longer.subrange(0, observer.log().len() as int));
                lemma_first_choices::<DP, O>(
                    dp,
                    start,
                    log,
                    observer.log(),
                    longer,
                );
                assert(term::selected_in(range@).contains(Some(version)));
            }
            observer.on_event(event);
            let ghost chosen_state = *self;
            let ghost chosen_log = observer.log();
            let ghost turned_down = rejected(dp, log.len() as int, observer.log().drop_last());
            proof {
                polls::lemma_choice_made::<DP>(
                    start.polls.chosen().len() as int,
                    earlier_choices,
                    choice,
                    log,
                    untold,
                    event.observed(),
                );
                course.finds_version(
                    choosing,
                    untold,
                    package,
                    range,
                    version,
                    self.holdings(),
                    observer.log(),
                );
                lemma_keyed(self.added@, package@, version);
                assert(observer.log().drop_last() =~= before_choice);
                lemma_version_told::<DP::P, DP::VS, DP::M>(
                    log,
                    observer.log(),
                    package@,
                    version,
                );
            }
            if self.is_added(&package, &version) {
                self.decide(&package, &version, Ghost(dp));
                proof {
                    course.decides_known(
                        chosen_state.holdings(),
                        chosen_log,
                        package@,
                        version,
                        self.holdings(),
                        chosen_log.push(chosen_state.told_decision(package@, version)),
                    );
                }
            } else {
                let retrieved = self.polls.get_dependencies(
                    dependency_provider,
                    &package,
                    &version,
                    &*observer,
                );
                proof {
                    if start.keeps_record() {
                        polls::lemma_asked_of_version(
                            chosen_state.holdings().added,
                            chosen_state.polls.retrieved(),
                            observer.log().len() as int,
                            package@,
                            version,
                        );
                    }
                }
                let dependencies = match retrieved {
                    Ok(dependencies) => dependencies,
                    Err(source) => {
                        assert(error::fails_to_retrieve(dp, package@, version, source));
                        proof {
                            polls::lemma_fresh_choices(
                                dp,
                                start.polls.chosen(),
                                self.polls.chosen(),
                                log,
                                observer.log(),
                                Err::<
                                    SelectedDependencies<DP::P, VersionOf<DP>>,
                                    PubGrubError<DP>,
                                >(
                                    PubGrubError::ErrorRetrievingDependencies {
                                        package,
                                        version,
                                        source,
                                    },
                                ),
                            );
                            polls::lemma_not_cancelled(
                                dp,
                                start.polls@,
                                asked,
                                log,
                                observer.log(),
                                Err::<
                                    SelectedDependencies<DP::P, VersionOf<DP>>,
                                    PubGrubError<DP>,
                                >(
                                    PubGrubError::ErrorRetrievingDependencies {
                                        package,
                                        version,
                                        source,
                                    },
                                ),
                            );
                            course.fails_dependencies(
                                self.holdings(),
                                observer.log(),
                                package,
                                version,
                                source,
                            );
                            lemma_knows_decisions::<DP, O>(
                                dp,
                                made,
                                self.decided(),
                                log,
                                observer.log(),
                            );
                        }
                        return Err(
                            PubGrubError::ErrorRetrievingDependencies { package, version, source },
                        );
                    },
                };
                let ghost given = dependencies;
                let constraints = match dependencies {
                    Dependencies::Unavailable(reason) => {
                        self.add_unavailable(&package, &version, reason, Ghost(dp));
                        self.note_added(&package, &version, Ghost(dp));
                        proof {
                            course.finds_unavailable(
                                chosen_state.holdings(),
                                observer.log(),
                                package,
                                version,
                                given,
                                self.holdings(),
                            );
                            lemma_follows_up(dp, trail, self.next@);
                            lemma_rejected(
                                dp,
                                log.len() as int,
                                observer.log(),
                                package@,
                                version,
                                0,
                            );
                            lemma_counts_same::<DP, O>(
                                dp,
                                start,
                                chosen_state,
                                *self,
                                log,
                                observer.log(),
                                turned_down,
                            );
                            lemma_traced_same::<DP, O>(
                                dp,
                                start,
                                chosen_state,
                                *self,
                                log,
                                observer.log(),
                            );
                            lemma_unavailable::<DP, O>(
                                dp,
                                start,
                                *self,
                                log,
                                observer.log(),
                                package@,
                                version,
                            );
                        }
                        continue;
                    },
                    Dependencies::Available(constraints) => constraints,
                };
                let incompatibilities = match dependency_provider.get_incompatibilities(
                    &package,
                    &version,
                ) {
                    Ok(incompatibilities) => incompatibilities,
                    Err(source) => {
                        assert(error::fails_to_retrieve(dp, package@, version, source));
                        proof {
                            polls::lemma_fresh_choices(
                                dp,
                                start.polls.chosen(),
                                self.polls.chosen(),
                                log,
                                observer.log(),
                                Err::<
                                    SelectedDependencies<DP::P, VersionOf<DP>>,
                                    PubGrubError<DP>,
                                >(
                                    PubGrubError::ErrorRetrievingDependencies {
                                        package,
                                        version,
                                        source,
                                    },
                                ),
                            );
                            polls::lemma_not_cancelled(
                                dp,
                                start.polls@,
                                asked,
                                log,
                                observer.log(),
                                Err::<
                                    SelectedDependencies<DP::P, VersionOf<DP>>,
                                    PubGrubError<DP>,
                                >(
                                    PubGrubError::ErrorRetrievingDependencies {
                                        package,
                                        version,
                                        source,
                                    },
                                ),
                            );
                            course.fails_incompatibilities(
                                self.holdings(),
                                observer.log(),
                                package,
                                version,
                                given,
                                source,
                            );
                            lemma_knows_decisions::<DP, O>(
                                dp,
                                made,
                                self.decided(),
                                log,
                                observer.log(),
                            );
                        }
                        return Err(
                            PubGrubError::ErrorRetrievingDependencies { package, version, source },
                        );
                    },
                };
                proof {
                    dependency_provider.declarations_are_conflicts(
                        &package,
                        &version,
                        incompatibilities,
                    );
                }
                let ghost stated = incompatibilities;
                let conflict = self.add_version(
                    &package,
                    &version,
                    constraints,
                    incompatibilities,
                    Ghost(dp),
                );
                if let Some(conflict) = conflict {
                    let ghost before = *self;
                    assert(search::clause_ok(
                        self.state.atoms@,
                        self.state.clauses()[conflict as int],
                    ));
                    self.conflict_tracker.count(
                        &package,
                        &self.state.store[conflict].terms,
                        false,
                    );
                    proof {
                        course.turns_down(
                            chosen_state.holdings(),
                            observer.log(),
                            package,
                            version,
                            given,
                            stated,
                            conflict as int,
                            self.holdings(),
                        );
                        lemma_follows_up(dp, trail, self.next@);
                        lemma_rejected(
                            dp,
                            log.len() as int,
                            observer.log(),
                            package@,
                            version,
                            0,
                        );
                        lemma_counts_same::<DP, O>(
                            dp,
                            start,
                            chosen_state,
                            before,
                            log,
                            observer.log(),
                            turned_down,
                        );
                        lemma_counts_rejected::<DP, O>(
                            dp,
                            start,
                            before,
                            *self,
                            log,
                            observer.log(),
                            turned_down,
                            package@,
                            version,
                            conflict as int,
                        );
                        lemma_traced_same::<DP, O>(
                            dp,
                            start,
                            chosen_state,
                            *self,
                            log,
                            observer.log(),
                        );
                        lemma_traced_same::<DP, O>(dp, start, *self, before, log, observer.log());
                        lemma_spoken_against::<DP, O>(
                            dp,
                            start,
                            before,
                            log,
                            observer.log(),
                            package@,
                            version,
                            conflict as int,
                        );
                        assert(before.state.rests_on(fact));
                        let chosen = state::selection(self.state.trail@);
                        assert(chosen.submap_of(chosen));
                        assert(self.state.clauses().is_prefix_of(self.state.clauses()));
                        lemma_wf(before, *self, dp);
                    }
                    continue;
                }
                proof {
                    course.decides(
                        chosen_state.holdings(),
                        chosen_log,
                        package,
                        version,
                        given,
                        stated,
                        self.holdings(),
                        chosen_log.push(chosen_state.told_decision(package@, version)),
                    );
                }
            }
            let n = self.state.trail.len();
            let level = self.state.level_at(n);
            let event = SolverEvent::Decision {
                package: &package,
                version: &version,
                decision_level: state::level_number(level),
            };
            proof {
                assert(self.state.entries().take(n as int) =~= self.state.entries());
                assert(event.observed() == chosen_state.told_decision(package@, version));
                assert(observer.log() =~= observer.log().push(event.observed()).subrange(
                    0,
                    observer.log().len() as int,
                ));
                polls::lemma_choices_later::<DP>(
                    start.polls.chosen().len() as int,
                    self.polls.chosen(),
                    log,
                    observer.log(),
                    observer.log().push(event.observed()),
                );
                polls::lemma_asked_version(
                    start.polls@.len() as int,
                    asked,
                    log,
                    observer.log(),
                    event.observed(),
                );
                lemma_follow_up_decision(dp, trail, *self);
                lemma_decided_last(chosen_state, *self, package@, version);
                lemma_tells_decision::<DP, O>(
                    dp,
                    made,
                    chosen_state.decided(),
                    log,
                    observer.log(),
                    event.observed(),
                );
                lemma_traced_decision::<DP, O>(
                    dp,
                    start,
                    chosen_state,
                    *self,
                    log,
                    observer.log(),
                    package@,
                    version,
                );
                observer::lemma_causes_push(log, observer.log(), event.observed(), fact);
                lemma_rejected(
                    dp,
                    log.len() as int,
                    observer.log(),
                    package@,
                    version,
                    observer::level_told(level as int),
                );
                lemma_counts_same::<DP, O>(
                    dp,
                    start,
                    chosen_state,
                    *self,
                    log,
                    observer.log(),
                    turned_down,
                );
                lemma_counts_push::<DP, O>(
                    dp,
                    start,
                    *self,
                    log,
                    observer.log(),
                    turned_down,
                    event.observed(),
                );
                self.lemma_still_told(start.is_fresh(), log, observer.log(), event.observed());
                let longer = observer.log().push(event.observed());
                assert(observer.log() =~= longer.subrange(0, observer.log().len() as int));
                lemma_first_choices::<DP, O>(
                    dp,
                    start,
                    log,
                    observer.log(),
                    longer,
                );
            }
            observer.on_event(event);
        }
    }
}

/// The counts of a package after the setbacks: each counts where it affected the package, or else
/// where its cause speaks of the package.
pub open spec fn after_setbacks<K, V>(
    counts: Counts,
    list: Seq<(K, Cause<K, V>)>,
    k: K,
) -> Counts
    decreases list.len(),
{
    if list.len() == 0 {
        counts
    } else {
        let (affected, cause) = list.last();
        tracker::after_conflict(
            after_setbacks(counts, list.drop_last(), k),
            k == affected,
            cause.named.contains(k),
            true,
        )
    }
}

/// The counts of a package after versions were rejected, each for a cause.
pub open spec fn after_rejections<K, V>(
    counts: Counts,
    list: Seq<(K, V)>,
    causes: Seq<Cause<K, V>>,
    k: K,
) -> Counts
    decreases list.len(),
{
    if list.len() == 0 {
        counts
    } else {
        tracker::after_conflict(
            after_rejections(counts, list.drop_last(), causes.drop_last(), k),
            k == list.last().0,
            causes.last().named.contains(k),
            false,
        )
    }
}

/// The versions that were chosen from `start` on and rejected as soon as their dependencies were
/// known, since they were not decided on.
pub open spec fn rejected<DP: DependencyProvider>(
    dp: DP,
    start: int,
    log: Seq<Observed<Key<DP>, VersionOf<DP>>>,
) -> Seq<(Key<DP>, VersionOf<DP>)>
    decreases log.len(),
{
    if log.len() <= start || log.len() == 0 {
        Seq::empty()
    } else {
        let earlier = rejected(dp, start, log.drop_last());
        match log.last() {
            Observed::VersionChoice(k, v, _) => if dp.requirements(k, v) is Some {
                earlier.push((k, v))
            } else {
                earlier
            },
            Observed::Decision(k, v, _) => if dp.requirements(k, v) is Some {
                earlier.drop_last()
            } else {
                earlier
            },
            _ => earlier,
        }
    }
}

/// Each of the causes is a single fact of the problem.
pub open spec fn are_facts<DP: DependencyProvider>(
    dp: DP,
    solver: SolverState<DP>,
    causes: Seq<Cause<Key<DP>, VersionOf<DP>>>,
) -> bool {
    let fact = problem::facts(dp, solver.root(), solver.version(), solver.exclusions());
    forall|j: int|
        0 <= j < causes.len() ==> observer::is_single_fact::<DP::P, DP::VS, DP::M>(
            #[trigger] causes[j],
            fact,
        )
}

/// The counts of the later solver are those of the earlier one after the rejections, each of them for
/// a single fact.
pub open spec fn counts_rejections<DP: DependencyProvider>(
    dp: DP,
    earlier: SolverState<DP>,
    solver: SolverState<DP>,
    list: Seq<(Key<DP>, VersionOf<DP>)>,
) -> bool {
    exists|causes: Seq<Cause<Key<DP>, VersionOf<DP>>>|
        {
            &&& causes.len() == list.len()
            &&& #[trigger] are_facts(dp, earlier, causes)
            &&& forall|k: Key<DP>|
                {
                    let after = after_rejections(earlier.counts(k), list, causes, k);
                    &&& (#[trigger] solver.counts(k)).2 == after.2
                    &&& solver.counts(k).3 == after.3
                }
        }
}

/// The counts have advanced by the setbacks that were told of, and by the rejections.
#[verifier::opaque]
pub open spec fn counts_up_to<DP: DependencyProvider, O: SolverObserver<DP::P, DP::VS, DP::M>>(
    dp: DP,
    earlier: SolverState<DP>,
    solver: SolverState<DP>,
    before: Seq<Observed<Key<DP>, VersionOf<DP>>>,
    after: Seq<Observed<Key<DP>, VersionOf<DP>>>,
    list: Seq<(Key<DP>, VersionOf<DP>)>,
) -> bool {
    observer::always_asks::<DP::P, DP::VS, DP::M, O>() ==> {
        &&& observer::has_settled(before, after)
        &&& forall|k: Key<DP>|
            {
                let told = after_setbacks(
                    earlier.counts(k),
                    observer::setbacks(before.len() as int, after),
                    k,
                );
                &&& (#[trigger] solver.counts(k)).0 == told.0
                &&& solver.counts(k).1 == told.1
            }
        &&& counts_rejections(dp, earlier, solver, list)
    }
}

/// The counts have advanced by the setbacks that were told of, and by the versions that were chosen
/// and rejected.
pub open spec fn counts_setbacks<DP: DependencyProvider, O: SolverObserver<DP::P, DP::VS, DP::M>>(
    dp: DP,
    earlier: SolverState<DP>,
    solver: SolverState<DP>,
    before: Seq<Observed<Key<DP>, VersionOf<DP>>>,
    after: Seq<Observed<Key<DP>, VersionOf<DP>>>,
) -> bool {
    counts_up_to::<DP, O>(
        dp,
        earlier,
        solver,
        before,
        after,
        rejected(dp, before.len() as int, after),
    )
}

/// What is counted of the conflicts of a propagation is counted of what is told of them.
proof fn lemma_after_conflicts<P: Package, VS: VersionSet, M>(
    counts: Counts,
    state: State<P, VS, M>,
    causes: Seq<(P, usize)>,
    k: P::V,
)
    requires
        state.ok(),
        forall|j: int| 0 <= j < causes.len() ==> (#[trigger] causes[j]).1 < state.store@.len(),
    ensures
        after_conflicts(counts, state.clauses(), causes, k) == after_setbacks(
            counts,
            state::conflicts_told(state, causes),
            k,
        ),
    decreases causes.len(),
{
    if causes.len() > 0 {
        let fewer = causes.drop_last();
        let list = state::conflicts_told(state, causes);
        let c = causes.last().1 as int;
        assert(list.drop_last() =~= state::conflicts_told(state, fewer));
        assert forall|j: int| 0 <= j < fewer.len() implies (#[trigger] fewer[j]).1
            < state.store@.len() by {
            assert(fewer[j] == causes[j]);
        }
        lemma_after_conflicts(counts, state, fewer, k);
        assert(causes[causes.len() - 1].1 < state.store@.len());
        assert(state.store@[c].justified());
        assert(state.clauses()[c] == state.store@[c].clause());
        assert(search::mentions(state.clauses()[c], k) == state.cause_told(c).named.contains(k));
    }
}

/// Setbacks leave the counts of rejections alone, and go by the other counts.
proof fn lemma_after_setbacks<K, V>(
    x: Counts,
    y: Counts,
    list: Seq<(K, Cause<K, V>)>,
    k: K,
)
    requires
        x.0 == y.0,
        x.1 == y.1,
    ensures
        after_setbacks(x, list, k).0 == after_setbacks(y, list, k).0,
        after_setbacks(x, list, k).1 == after_setbacks(y, list, k).1,
        after_setbacks(x, list, k).2 == x.2,
        after_setbacks(x, list, k).3 == x.3,
    decreases list.len(),
{
    if list.len() > 0 {
        lemma_after_setbacks(x, y, list.drop_last(), k);
    }
}

proof fn lemma_after_both<K, V>(
    counts: Counts,
    a: Seq<(K, Cause<K, V>)>,
    b: Seq<(K, Cause<K, V>)>,
    k: K,
)
    ensures
        after_setbacks(counts, a + b, k) == after_setbacks(after_setbacks(counts, a, k), b, k),
    decreases b.len(),
{
    if b.len() == 0 {
        assert(a + b =~= a);
    } else {
        assert((a + b).drop_last() =~= a + b.drop_last());
        lemma_after_both(counts, a, b.drop_last(), k);
    }
}

/// Propagation counts the conflicts that it tells of.
proof fn lemma_counts_propagation<
    DP: DependencyProvider,
    O: SolverObserver<DP::P, DP::VS, DP::M>,
>(
    dp: DP,
    earlier: SolverState<DP>,
    solver: SolverState<DP>,
    counted: SolverState<DP>,
    causes: Seq<(DP::P, usize)>,
    a: Seq<Observed<Key<DP>, VersionOf<DP>>>,
    b: Seq<Observed<Key<DP>, VersionOf<DP>>>,
    c: Seq<Observed<Key<DP>, VersionOf<DP>>>,
)
    requires
        counts_setbacks::<DP, O>(dp, earlier, solver, a, b),
        a.is_prefix_of(b),
        b.is_prefix_of(c),
        counted.ok(),
        forall|j: int|
            0 <= j < causes.len() ==> (#[trigger] causes[j]).1 < counted.state.store@.len(),
        state::are_told::<DP::P, DP::VS, DP::M, O>(counted.state, causes, b, c),
        forall|i: int| b.len() <= i < c.len() ==> observer::holds_tree(#[trigger] c[i]),
        forall|k: Key<DP>| #[trigger]
            counted.conflict_tracker.counts(k) == after_conflicts(
                solver.conflict_tracker.counts(k),
                counted.state.clauses(),
                causes,
                k,
            ),
    ensures
        counts_setbacks::<DP, O>(dp, earlier, counted, a, c),
{
    reveal(counts_up_to);
    reveal(state::are_told);
    if observer::always_asks::<DP::P, DP::VS, DP::M, O>() {
        let first = observer::setbacks(a.len() as int, b);
        let more = observer::setbacks(b.len() as int, c);
        let list = rejected(dp, a.len() as int, b);
        observer::lemma_setbacks_chain(a, b, c);
        lemma_rejected_path(dp, a.len() as int, b, c);
        if c.len() == b.len() {
            assert(c =~= b);
        }
        assert forall|k: Key<DP>|
            {
                let told = after_setbacks(earlier.counts(k), first + more, k);
                &&& (#[trigger] counted.counts(k)).0 == told.0
                &&& counted.counts(k).1 == told.1
                &&& counted.counts(k).2 == solver.counts(k).2
                &&& counted.counts(k).3 == solver.counts(k).3
            } by {
            lemma_after_both(earlier.counts(k), first, more, k);
            lemma_after_conflicts(solver.counts(k), counted.state, causes, k);
            assert(counted.conflict_tracker.counts(k) == after_conflicts(
                solver.conflict_tracker.counts(k),
                counted.state.clauses(),
                causes,
                k,
            ));
            lemma_after_setbacks(
                solver.counts(k),
                after_setbacks(earlier.counts(k), first, k),
                more,
                k,
            );
        }
        let held = choose|held: Seq<Cause<Key<DP>, VersionOf<DP>>>|
            {
                &&& held.len() == list.len()
                &&& #[trigger] are_facts(dp, earlier, held)
                &&& forall|k: Key<DP>|
                    {
                        let after = after_rejections(earlier.counts(k), list, held, k);
                        &&& (#[trigger] solver.counts(k)).2 == after.2
                        &&& solver.counts(k).3 == after.3
                    }
            };
        assert(are_facts(dp, earlier, held));
        assert(counts_rejections(dp, earlier, counted, list));
    }
}

/// The path of a propagation rejects nothing.
proof fn lemma_rejected_path<DP: DependencyProvider>(
    dp: DP,
    start: int,
    b: Seq<Observed<Key<DP>, VersionOf<DP>>>,
    c: Seq<Observed<Key<DP>, VersionOf<DP>>>,
)
    requires
        0 <= start <= b.len(),
        b.is_prefix_of(c),
        forall|i: int| b.len() <= i < c.len() ==> observer::holds_tree(#[trigger] c[i]),
    ensures
        rejected(dp, start, c) == rejected(dp, start, b),
    decreases c.len(),
{
    if c.len() == b.len() {
        assert(c =~= b);
    } else {
        let shorter = c.drop_last();
        assert(b =~= shorter.subrange(0, b.len() as int)) by {
            assert forall|i: int| 0 <= i < b.len() implies b[i] == shorter[i] by {
                assert(b[i] == c.subrange(0, b.len() as int)[i]);
            }
        }
        assert forall|i: int| b.len() <= i < shorter.len() implies observer::holds_tree(
            #[trigger] shorter[i],
        ) by {
            assert(shorter[i] == c[i]);
        }
        lemma_rejected_path(dp, start, b, shorter);
        assert(observer::holds_tree(c[c.len() - 1]));
    }
}

/// The decisions are from before, or the observer was told of them.
pub open spec fn knows_decisions<K, V>(
    made: Seq<(K, V)>,
    left: Seq<(K, V)>,
    before: Seq<Observed<K, V>>,
    after: Seq<Observed<K, V>>,
) -> bool {
    forall|k: K, v: V| #[trigger]
        left.contains((k, v)) ==> made.contains((k, v)) || observer::is_decided(
            before,
            after,
            k,
            v,
        )
}

proof fn lemma_knows_decisions<DP: DependencyProvider, O: SolverObserver<DP::P, DP::VS, DP::M>>(
    dp: DP,
    made: Seq<(Key<DP>, VersionOf<DP>)>,
    left: Seq<(Key<DP>, VersionOf<DP>)>,
    before: Seq<Observed<Key<DP>, VersionOf<DP>>>,
    after: Seq<Observed<Key<DP>, VersionOf<DP>>>,
)
    requires
        tells::<DP, O>(dp, made, left, before, after),
    ensures
        path::is_walked::<DP::P, DP::VS, DP::M, O>(made, left, before, after),
{
    reveal(tells);
    assert forall|k: Key<DP>, v: VersionOf<DP>| #[trigger] left.contains((k, v)) implies
        made.contains((k, v)) || observer::is_decided(before, after, k, v) by {
        let d = choose|d: int| 0 <= d < left.len() && left[d] == (k, v);
        assert(is_kept(made, left, d) || is_told_of(before, after, left[d], d + 1));
        if is_kept(made, left, d) {
            assert(made[d] == (k, v));
        } else {
            let i = choose|i: int|
                before.len() <= i < after.len() && #[trigger] observer::stands(
                    after,
                    i,
                    left[d].0,
                    left[d].1,
                ) && after[i]->Decision_2 == observer::level_told(d + 1);
            assert(after[i] is Decision);
        }
    }
}

/// Whoever is told of everything was told of every derivation that the solver has not taken back.
#[verifier::opaque]
spec fn is_traced<DP: DependencyProvider, O: SolverObserver<DP::P, DP::VS, DP::M>>(
    dp: DP,
    earlier: SolverState<DP>,
    solver: SolverState<DP>,
    before: Seq<Observed<Key<DP>, VersionOf<DP>>>,
    after: Seq<Observed<Key<DP>, VersionOf<DP>>>,
) -> bool {
    observer::always_asks::<DP::P, DP::VS, DP::M, O>() ==> {
        &&& state::trail_told(
            earlier.state.entries(),
            solver.state.entries(),
            before,
            after,
        )
        &&& observer::has_settled(before, after)
        &&& trace::leads(earlier.is_plain(dp), earlier.steps(), solver.steps(), before, after)
        &&& is_sourced(dp, earlier, solver, before, after)
        &&& observer::levels_fit(before.len() as int, after) ==> keeps_to_choices(
            dp,
            earlier.root(),
            earlier.version(),
            earlier.exclusions(),
            earlier.steps(),
            before,
            after,
        )
    }
}

/// Where the solver has started from single facts, what it has learned was told, and so is every
/// cause.
#[verifier::opaque]
spec fn is_sourced<DP: DependencyProvider>(
    dp: DP,
    earlier: SolverState<DP>,
    solver: SolverState<DP>,
    before: Seq<Observed<Key<DP>, VersionOf<DP>>>,
    after: Seq<Observed<Key<DP>, VersionOf<DP>>>,
) -> bool {
    earlier.holds_facts() ==> {
        &&& forall|c: int|
            0 <= c < solver.state.store@.len() ==> solver.state.store@[c].tree.is_fact()
                || observer::is_told_back(
                before.len() as int,
                after.len() as int,
                after,
                #[trigger] solver.state.cause_told(c),
            )
        &&& observer::causes_are_sourced(
            before,
            after,
            problem::facts(dp, earlier.root(), earlier.version(), earlier.exclusions()),
        )
    }
}

/// The trail leaves open for other packages only what the version requires of them.
spec fn takes_in<DP: DependencyProvider>(
    dp: DP,
    trail: Seq<Entry<Key<DP>, VersionOf<DP>>>,
    k: Key<DP>,
    v: VersionOf<DP>,
) -> bool {
    &&& dp.requirements(k, v) is Some
    &&& forall|i: int|
        0 <= i < dp.requirements(k, v)->0.len() ==> {
            let q = #[trigger] dp.requirements(k, v)->0[i];
            search::open_states(trail, q.0).subset_of(term::selected_in(q.1))
        }
}

/// What the decision requires was derived before the next one was made.
spec fn is_followed_up<DP: DependencyProvider>(
    dp: DP,
    trail: Seq<Entry<Key<DP>, VersionOf<DP>>>,
    t: int,
) -> bool {
    forall|v: VersionOf<DP>| #[trigger]
        trail[t].set.contains(Some(v)) ==> takes_in(
            dp,
            progress::cut(trail, trail[t].level),
            trail[t].key,
            v,
        )
}

/// What the decisions require was derived, but for the last step if that is a decision for the
/// package.
#[verifier::opaque]
spec fn follows_up<DP: DependencyProvider>(
    dp: DP,
    trail: Seq<Entry<Key<DP>, VersionOf<DP>>>,
    next: Option<Key<DP>>,
) -> bool {
    forall|t: int|
        0 <= t < trail.len() && (#[trigger] trail[t]).cause is None ==> is_followed_up(dp, trail, t)
            || (t == trail.len() - 1 && next == Some(trail[t].key))
}

/// The steps leave open for other packages only what the decided versions require of them.
pub open spec fn has_propagated<DP: DependencyProvider>(
    dp: DP,
    steps: Seq<Step<Key<DP>, VersionOf<DP>>>,
) -> bool {
    forall|t: int, v: VersionOf<DP>, i: int|
        #![trigger steps[t].set.contains(Some(v)), dp.requirements(steps[t].key, v)->0[i]]
        0 <= t < steps.len() && steps[t].decided && steps[t].set.contains(Some(v)) ==> {
            &&& dp.requirements(steps[t].key, v) is Some
            &&& 0 <= i < dp.requirements(steps[t].key, v)->0.len() ==> {
                let q = dp.requirements(steps[t].key, v)->0[i];
                trace::open_states(steps, q.0).subset_of(term::selected_in(q.1))
            }
        }
}

/// Where nothing is left to follow up, nothing is for any package.
proof fn lemma_follows_up<DP: DependencyProvider>(
    dp: DP,
    trail: Seq<Entry<Key<DP>, VersionOf<DP>>>,
    next: Key<DP>,
)
    requires
        follows_up(dp, trail, None),
    ensures
        follows_up(dp, trail, Some(next)),
{
    reveal(follows_up);
}

/// No step is a decision.
proof fn lemma_nothing_to_follow_up<DP: DependencyProvider>(
    dp: DP,
    trail: Seq<Entry<Key<DP>, VersionOf<DP>>>,
)
    requires
        trail.len() == 0,
    ensures
        follows_up(dp, trail, None),
{
    reveal(follows_up);
}

/// A decision is still to be followed up.
proof fn lemma_follow_up_decision<DP: DependencyProvider>(
    dp: DP,
    trail: Seq<Entry<Key<DP>, VersionOf<DP>>>,
    later: SolverState<DP>,
)
    requires
        follows_up(dp, trail, None),
        later.ok(),
        later.state.entries().len() > 0,
        later.state.entries().drop_last() == trail,
        later.state.entries().last().cause is None,
    ensures
        follows_up(dp, later.state.entries(), Some(later.state.entries().last().key)),
{
    reveal(follows_up);
    let longer = later.state.entries();
    let n = trail.len() as int;
    let atoms = later.state.atoms@;
    let store = later.state.clauses();
    assert(trail =~= longer.take(n));
    search::lemma_trail_take(atoms, store, longer, n);
    search::lemma_trail_entry(atoms, store, longer, n);
    assert forall|t: int|
        0 <= t < longer.len() && (#[trigger] longer[t]).cause is None implies is_followed_up(
        dp,
        longer,
        t,
    ) || t == n by {
        if t < n {
            assert(longer[t] == trail[t]);
            assert(is_followed_up(dp, trail, t));
            progress::lemma_levels(atoms, store, trail, t);
            assert(progress::cut(longer, longer[t].level) == progress::cut(trail, trail[t].level));
            assert forall|v: VersionOf<DP>| #[trigger] longer[t].set.contains(
                Some(v),
            ) implies takes_in(
                dp,
                progress::cut(longer, longer[t].level),
                longer[t].key,
                v,
            ) by {
                assert(trail[t].set.contains(Some(v)));
            }
        }
    }
}

/// The last step is the decision that was made.
proof fn lemma_decided_last<DP: DependencyProvider>(
    solver: SolverState<DP>,
    later: SolverState<DP>,
    k: Key<DP>,
    v: VersionOf<DP>,
)
    requires
        later.state.entries().len() > 0,
        later.state.entries().last().cause is None,
        later.decided() == solver.decided().push((k, v)),
    ensures
        later.state.entries().last().key == k,
{
    let last = later.state.trail@.last();
    assert(last.cause is None);
    assert(later.decided().last() == (k, v));
    assert(state::decisions(later.state.trail@).last() == (last.package@, last.version->0));
}

/// A requirement is met where the clause that holds it calls for no step.
proof fn lemma_requirement_met<DP: DependencyProvider>(
    state: State<DP::P, DP::VS, DP::M>,
    j: int,
    k: Key<DP>,
    v: VersionOf<DP>,
    q: (Key<DP>, Set<VersionOf<DP>>),
)
    requires
        state.ok(),
        0 <= j < state.clauses().len(),
        problem::is_held_as(problem::requirement_clause(k, v, q), state.clauses()[j]),
        search::open_states(state.entries(), k) == term::only(v),
        forall|p: Key<DP>| !#[trigger] state.pressing(j, p),
    ensures
        search::open_states(state.entries(), q.0).subset_of(term::selected_in(q.1)),
{
    let clause = problem::requirement_clause(k, v, q);
    let held = state.clauses()[j];
    let trail = state.entries();
    assert(clause[0] == (k, term::only(v)));
    assert(clause[1] == (q.0, term::selected_in(q.1).complement()));
    assert(search::clause_ok(state.atoms@, held));
    assert(term::only(v).contains(Some(v)));
    assert(!term::only(v).contains(None));
    assert(search::speaks_of(clause, k));
    assert(search::mentions(held, k));
    assert forall|x: Option<VersionOf<DP>>| search::open_states(trail, q.0).contains(
        x,
    ) implies term::selected_in(q.1).contains(x) by {
        if !term::selected_in(q.1).contains(x) {
            let other = match x {
                Some(w) => Map::<Key<DP>, VersionOf<DP>>::empty().insert(q.0, w),
                None => Map::<Key<DP>, VersionOf<DP>>::empty(),
            };
            let s = if q.0 == k {
                other
            } else {
                other.insert(k, v)
            };
            assert(s.get(k) == Some(v));
            assert(s.get(q.0) == x);
            assert(search::violates(clause, s)) by {
                assert forall|i: int| 0 <= i < clause.len() implies (
                #[trigger] clause[i]).1.contains(s.get(clause[i].0)) by {
                    assert(i == 0 || i == 1);
                }
            }
            assert(search::violates(held, s));
            search::lemma_violates_at(held, s);
            assert(search::at(held, k).contains(Some(v)));
            assert(search::at(held, q.0).contains(x));
            let p = if search::mentions(held, q.0) {
                q.0
            } else {
                k
            };
            assert(search::satisfied_except(held, trail, p)) by {
                assert forall|i: int| 0 <= i < held.len() && (
                #[trigger] held[i]).0 != p implies search::open_states(
                    trail,
                    held[i].0,
                ).subset_of(held[i].1) by {
                    assert(search::mentions(held, held[i].0));
                    assert(search::speaks_of(clause, held[i].0));
                    let m = choose|m: int|
                        0 <= m < clause.len() && (#[trigger] clause[m]).0 == held[i].0
                            && clause[m].1 != Set::<Option<VersionOf<DP>>>::full();
                    assert(held[i].0 == k);
                    search::lemma_at(held, i);
                    assert forall|y: Option<VersionOf<DP>>| term::only(v).contains(
                        y,
                    ) implies held[i].1.contains(y) by {
                        assert(y == Some(v));
                    }
                }
            }
            if p == k {
                assert(search::open_states(trail, k).contains(Some(v)));
            }
            assert(state.pressing(j, p));
        }
    }
}

/// Propagation follows up the decisions.
proof fn lemma_follow_up<DP: DependencyProvider>(
    dp: DP,
    solver: SolverState<DP>,
    later: SolverState<DP>,
    base: int,
)
    requires
        solver.wf(dp),
        later.wf(dp),
        later.added == solver.added,
        follows_up(dp, solver.state.entries(), Some(solver.next@)),
        later.state.has_caught_up(solver.state.entries(), solver.next@, base),
    ensures
        follows_up(dp, later.state.entries(), None),
{
    reveal(follows_up);
    let first = solver.state.entries();
    let trail = later.state.entries();
    let atoms = later.state.atoms@;
    let store = later.state.clauses();
    let kept = trail.take(base);
    let n = first.len() as int;
    assert(kept =~= first.take(base));
    search::lemma_trail_take(atoms, store, trail, base);
    state::lemma_derived_level(atoms, store, trail, base);
    progress::lemma_cut(atoms, store, trail, 0);
    progress::lemma_cut(atoms, store, kept, 0);
    progress::lemma_cut(atoms, store, trail, search::level(trail));
    progress::lemma_cut(atoms, store, kept, search::level(kept));
    assert forall|t: int| 0 <= t < trail.len() && (#[trigger] trail[t]).cause is None implies
        is_followed_up(dp, trail, t) by {
        assert(t < base);
        assert(trail[t] == kept[t] && kept[t] == first[t]);
        let l = trail[t].level;
        progress::lemma_levels(atoms, store, trail, t);
        progress::lemma_levels(atoms, store, kept, t);
        let part = progress::cut(trail, l);
        // Nothing below the last level has changed, and on that level steps were added at most.
        if is_followed_up(dp, first, t) {
            let before = progress::cut(first, l);
            if l < search::level(trail) {
                state::lemma_cut_derived(atoms, store, trail, base, l);
            } else {
                assert(part == trail);
            }
            assert(progress::cut(kept, l) == before) by {
                if base < n {
                    let m = choose|m: int|
                        0 <= m < search::level(first) && #[trigger] progress::cut(first, m)
                            == first.take(base);
                    state::lemma_cut_level_bound(first, m);
                    progress::lemma_cut_cut(first, m, l);
                } else {
                    assert(first.take(base) =~= first);
                }
            }
            assert forall|v: VersionOf<DP>| #[trigger] trail[t].set.contains(
                Some(v),
            ) implies takes_in(dp, part, trail[t].key, v) by {
                let k = trail[t].key;
                assert(first[t].set.contains(Some(v)));
                assert(takes_in(dp, before, k, v));
                if l == search::level(trail) {
                    assert(before == kept);
                    assert forall|i: int| 0 <= i < dp.requirements(k, v)->0.len() implies {
                        let q = #[trigger] dp.requirements(k, v)->0[i];
                        search::open_states(part, q.0).subset_of(term::selected_in(q.1))
                    } by {
                        let q = dp.requirements(k, v)->0[i];
                        search::lemma_open_states_shrink(atoms, store, trail, base, q.0);
                    }
                }
            }
        } else {
            assert(t == n - 1 && first[t].key == solver.next@);
            assert(base == n);
            let k = trail[t].key;
            assert(kept =~= first);
            assert(l == search::level(first));
            assert(part == trail);
            state::lemma_selection(atoms, store, later.state.trail@, k);
            assert(search::decided(trail, k));
            let chosen = state::selection(later.state.trail@);
            let w = chosen[k];
            assert(has_pair(later.added@, k, w));
            let a = choose|a: int|
                0 <= a < later.added@.len() && (#[trigger] later.added@[a]).0@ == k
                    && later.added@[a].1 == w;
            assert(problem::recorded(dp, store, k, w));
            search::lemma_open_states_shrink(atoms, store, trail, t + 1, k);
            assert(trail.take(t + 1).last() == trail[t]);
            assert(search::open_states(trail.take(t + 1), k) == trail[t].set);
            assert(term::only(w).contains(Some(w)));
            assert(trail[t].set.contains(Some(w)));
            search::lemma_trail_entry(atoms, store, trail, t);
            assert forall|v: VersionOf<DP>| #[trigger] trail[t].set.contains(
                Some(v),
            ) implies takes_in(dp, part, k, v) by {
                assert(v == w) by {
                    assert(trail[t].set.contains(Some(v)) && trail[t].set.contains(Some(w)));
                    assert(Some(v) == Some(w));
                }
                if dp.requirements(k, v) is None {
                    let owner = problem::owner_clause(k, v);
                    let j = choose|j: int|
                        0 <= j < store.len() && problem::is_held_as(owner, #[trigger] store[j]);
                    lemma_owner_presses(later.state, j, k, v);
                    let p = choose|p: Key<DP>| #[trigger] later.state.pressing(j, p);
                    assert(owner[0] == (k, term::only(v)));
                    assert(!term::only(v).contains(None));
                    assert(search::speaks_of(owner, k));
                    assert(search::mentions(store[j], k));
                    assert(later.state.is_watched(base, Some(solver.next@), j));
                    assert(false);
                }
                assert forall|i: int| 0 <= i < dp.requirements(k, v)->0.len() implies {
                    let q = #[trigger] dp.requirements(k, v)->0[i];
                    search::open_states(part, q.0).subset_of(term::selected_in(q.1))
                } by {
                    let q = dp.requirements(k, v)->0[i];
                    let clause = problem::requirement_clause(k, v, q);
                    assert(problem::keeps(store, clause));
                    let j = choose|j: int|
                        0 <= j < store.len() && problem::is_held_as(clause, #[trigger] store[j]);
                    assert(clause[0] == (k, term::only(v)));
                    assert(!term::only(v).contains(None));
                    assert(search::speaks_of(clause, k));
                    assert(search::mentions(store[j], k));
                    assert(later.state.is_watched(base, Some(solver.next@), j));
                    assert forall|p: Key<DP>| !#[trigger] later.state.pressing(j, p) by {}
                    lemma_requirement_met::<DP>(later.state, j, k, v, q);
                }
            }
        }
    }
}

/// A clause that rules out the decided version is satisfied.
proof fn lemma_owner_presses<P: Package, VS: VersionSet, M>(
    state: State<P, VS, M>,
    j: int,
    k: P::V,
    v: VS::V,
)
    requires
        state.ok(),
        0 <= j < state.clauses().len(),
        problem::is_held_as(problem::owner_clause(k, v), state.clauses()[j]),
        search::open_states(state.entries(), k) == term::only(v),
    ensures
        exists|p: P::V| #[trigger] state.pressing(j, p),
{
    let clause = problem::owner_clause(k, v);
    let held = state.clauses()[j];
    let s = Map::<P::V, VS::V>::empty().insert(k, v);
    assert(clause[0] == (k, term::only(v)));
    assert(term::only(v).contains(Some(v)));
    assert(!term::only(v).contains(None));
    assert(search::speaks_of(clause, k));
    assert(s.get(k) == Some(v));
    assert(search::violates(clause, s)) by {
        assert forall|i: int| 0 <= i < clause.len() implies (#[trigger] clause[i]).1.contains(
            s.get(clause[i].0),
        ) by {}
    }
    assert(search::violates(held, s));
    assert(search::clause_ok(state.atoms@, held));
    search::lemma_violates_at(held, s);
    assert(search::at(held, k).contains(Some(v)));
    assert(search::satisfied_except(held, state.entries(), k)) by {
        assert forall|i: int| 0 <= i < held.len() && (
        #[trigger] held[i]).0 != k implies search::open_states(
            state.entries(),
            held[i].0,
        ).subset_of(held[i].1) by {
            assert(search::mentions(held, held[i].0));
            assert(search::speaks_of(clause, held[i].0));
        }
    }
    assert(search::open_states(state.entries(), k).contains(Some(v)));
    assert(state.pressing(j, k));
}

/// Where the decisions are followed up, the steps are propagated.
proof fn lemma_has_propagated<DP: DependencyProvider>(dp: DP, solver: SolverState<DP>)
    requires
        solver.ok(),
        follows_up(dp, solver.state.entries(), None),
    ensures
        has_propagated(dp, solver.steps()),
{
    reveal(follows_up);
    let trail = solver.state.entries();
    let steps = solver.steps();
    let atoms = solver.state.atoms@;
    let store = solver.state.clauses();
    assert forall|t: int, v: VersionOf<DP>, i: int|
        #![trigger steps[t].set.contains(Some(v)), dp.requirements(steps[t].key, v)->0[i]]
        0 <= t < steps.len() && steps[t].decided && steps[t].set.contains(Some(v)) implies {
        &&& dp.requirements(steps[t].key, v) is Some
        &&& 0 <= i < dp.requirements(steps[t].key, v)->0.len() ==> {
            let q = dp.requirements(steps[t].key, v)->0[i];
            trace::open_states(steps, q.0).subset_of(term::selected_in(q.1))
        }
    } by {
        let l = trail[t].level;
        let part = progress::cut(trail, l);
        assert(trail[t].cause is None);
        assert(trail[t].set.contains(Some(v)));
        assert(takes_in(dp, part, trail[t].key, v));
        if 0 <= i < dp.requirements(steps[t].key, v)->0.len() {
            let q = dp.requirements(steps[t].key, v)->0[i];
            progress::lemma_levels(atoms, store, trail, t);
            progress::lemma_cut(atoms, store, trail, l);
            search::lemma_open_states_shrink(atoms, store, trail, part.len() as int, q.0);
            trace::lemma_steps_of(trail, q.0);
        }
    }
}

/// No solution that fits the steps selects the version.
pub open spec fn is_turned_down<DP: DependencyProvider>(
    dp: DP,
    root: Key<DP>,
    version: VersionOf<DP>,
    exclusions: Seq<Clause<Key<DP>, VersionOf<DP>>>,
    steps: Seq<Step<Key<DP>, VersionOf<DP>>>,
    k: Key<DP>,
    v: VersionOf<DP>,
) -> bool {
    forall|s: Selection<DP>| #[trigger]
        problem::is_solution(dp, root, version, s) && problem::avoids(exclusions, s)
            && trace::fits(steps, s) ==> s.get(k) != Some(v)
}

/// A version that is chosen is decided on next, unless no solution that fits the steps selects it; and
/// whenever a package is chosen, what the decided versions require was derived.
pub open spec fn keeps_to_choices<DP: DependencyProvider>(
    dp: DP,
    root: Key<DP>,
    version: VersionOf<DP>,
    exclusions: Seq<Clause<Key<DP>, VersionOf<DP>>>,
    steps: Seq<Step<Key<DP>, VersionOf<DP>>>,
    before: Seq<Observed<Key<DP>, VersionOf<DP>>>,
    after: Seq<Observed<Key<DP>, VersionOf<DP>>>,
) -> bool {
    &&& forall|i: int|
        before.len() <= i < after.len() - 1 && (#[trigger] after[i]) is VersionChoice ==> after[i
            + 1] is Decision || is_turned_down(
            dp,
            root,
            version,
            exclusions,
            trace::retraced(steps, before.len() as int, after.take(i)),
            after[i]->VersionChoice_0,
            after[i]->VersionChoice_1,
        )
    &&& forall|i: int|
        before.len() <= i < after.len() && (#[trigger] after[i]) is PackageChoice
            ==> has_propagated(dp, trace::retraced(steps, before.len() as int, after.take(i)))
}

/// Where the last event is the choice of a version, no solution that fits the steps selects it.
#[verifier::opaque]
spec fn has_turned_down<DP: DependencyProvider, O: SolverObserver<DP::P, DP::VS, DP::M>>(
    dp: DP,
    earlier: SolverState<DP>,
    before: Seq<Observed<Key<DP>, VersionOf<DP>>>,
    after: Seq<Observed<Key<DP>, VersionOf<DP>>>,
) -> bool {
    observer::always_asks::<DP::P, DP::VS, DP::M, O>() && observer::levels_fit(
        before.len() as int,
        after,
    ) && after.len() > before.len() && after.last() is VersionChoice ==> is_turned_down(
        dp,
        earlier.root(),
        earlier.version(),
        earlier.exclusions(),
        trace::retraced(earlier.steps(), before.len() as int, after.drop_last()),
        after.last()->VersionChoice_0,
        after.last()->VersionChoice_1,
    )
}

/// One event more keeps to the choices.
proof fn lemma_keeps_to_choices<DP: DependencyProvider, O: SolverObserver<DP::P, DP::VS, DP::M>>(
    dp: DP,
    earlier: SolverState<DP>,
    solver: SolverState<DP>,
    before: Seq<Observed<Key<DP>, VersionOf<DP>>>,
    after: Seq<Observed<Key<DP>, VersionOf<DP>>>,
    longer: Seq<Observed<Key<DP>, VersionOf<DP>>>,
)
    requires
        is_traced::<DP, O>(dp, earlier, solver, before, after),
        observer::always_asks::<DP::P, DP::VS, DP::M, O>(),
        observer::levels_fit(before.len() as int, longer),
        before.len() <= after.len(),
        after.is_prefix_of(longer),
        longer.len() > after.len() ==> longer[after.len() as int] is Decision || has_turned_down::<
            DP,
            O,
        >(dp, earlier, before, after),
        forall|i: int|
            after.len() <= i < longer.len() - 1 ==> !((#[trigger] longer[i]) is VersionChoice),
        forall|i: int|
            after.len() <= i < longer.len() && (#[trigger] longer[i]) is PackageChoice ==> i
                == after.len() && has_propagated(dp, solver.steps()),
    ensures
        keeps_to_choices(
            dp,
            earlier.root(),
            earlier.version(),
            earlier.exclusions(),
            earlier.steps(),
            before,
            longer,
        ),
{
    reveal(is_traced);
    reveal(has_turned_down);
    assert forall|i: int| 0 <= i < after.len() implies after[i] == longer[i] by {
        assert(after[i] == longer.subrange(0, after.len() as int)[i]);
    }
    assert(observer::levels_fit(before.len() as int, after)) by {
        assert forall|i: int|
            before.len() <= i < after.len() && (#[trigger] after[i]) is Backtrack implies
            after[i]->Backtrack_0 < u32::MAX by {
            assert(longer[i] == after[i]);
        }
    }
    assert forall|i: int|
        before.len() <= i < longer.len() - 1 && (#[trigger] longer[i]) is VersionChoice implies
        longer[i + 1] is Decision || is_turned_down(
        dp,
        earlier.root(),
        earlier.version(),
        earlier.exclusions(),
        trace::retraced(earlier.steps(), before.len() as int, longer.take(i)),
        longer[i]->VersionChoice_0,
        longer[i]->VersionChoice_1,
    ) by {
        assert(i < after.len());
        assert(longer.take(i) =~= after.take(i));
        assert(longer[i] == after[i]);
        if i < after.len() - 1 {
            assert(longer[i + 1] == after[i + 1]);
        } else {
            assert(after.drop_last() =~= after.take(i));
            assert(after.last() == after[i]);
        }
    }
    reveal(trace::leads);
    assert forall|i: int|
        before.len() <= i < longer.len() && (#[trigger] longer[i]) is PackageChoice implies
        has_propagated(
        dp,
        trace::retraced(earlier.steps(), before.len() as int, longer.take(i)),
    ) by {
        if i < after.len() {
            assert(longer.take(i) =~= after.take(i));
            assert(longer[i] == after[i]);
        } else {
            assert(longer.take(i) =~= after);
        }
    }
}

/// The version was chosen last, and no solution that fits the steps selects it.
proof fn lemma_turned_down<DP: DependencyProvider, O: SolverObserver<DP::P, DP::VS, DP::M>>(
    dp: DP,
    earlier: SolverState<DP>,
    solver: SolverState<DP>,
    before: Seq<Observed<Key<DP>, VersionOf<DP>>>,
    after: Seq<Observed<Key<DP>, VersionOf<DP>>>,
    k: Key<DP>,
    v: VersionOf<DP>,
)
    requires
        is_traced::<DP, O>(dp, earlier, solver, before, after),
        after.len() > before.len(),
        after.last() is VersionChoice,
        after.last()->VersionChoice_0 == k,
        after.last()->VersionChoice_1 == v,
        is_turned_down(
            dp,
            earlier.root(),
            earlier.version(),
            earlier.exclusions(),
            solver.steps(),
            k,
            v,
        ),
    ensures
        has_turned_down::<DP, O>(dp, earlier, before, after),
{
    reveal(is_traced);
    reveal(has_turned_down);
    reveal(trace::leads);
}

/// A version that the provider rules out is turned down.
proof fn lemma_unavailable<DP: DependencyProvider, O: SolverObserver<DP::P, DP::VS, DP::M>>(
    dp: DP,
    earlier: SolverState<DP>,
    solver: SolverState<DP>,
    before: Seq<Observed<Key<DP>, VersionOf<DP>>>,
    after: Seq<Observed<Key<DP>, VersionOf<DP>>>,
    k: Key<DP>,
    v: VersionOf<DP>,
)
    requires
        is_traced::<DP, O>(dp, earlier, solver, before, after),
        after.len() > before.len(),
        after.last() is VersionChoice,
        after.last()->VersionChoice_0 == k,
        after.last()->VersionChoice_1 == v,
        dp.requirements(k, v) is None,
    ensures
        has_turned_down::<DP, O>(dp, earlier, before, after),
{
    assert forall|s: Selection<DP>| #[trigger]
        problem::is_solution(dp, earlier.root(), earlier.version(), s) && problem::avoids(
            earlier.exclusions(),
            s,
        ) && trace::fits(solver.steps(), s) implies s.get(k) != Some(v) by {
        if s.get(k) == Some(v) {
            assert(s.dom().contains(k));
            assert(problem::fits(dp, s, k));
        }
    }
    lemma_turned_down::<DP, O>(dp, earlier, solver, before, after, k, v);
}

/// A version that an incompatibility speaks against is turned down.
proof fn lemma_spoken_against<DP: DependencyProvider, O: SolverObserver<DP::P, DP::VS, DP::M>>(
    dp: DP,
    earlier: SolverState<DP>,
    solver: SolverState<DP>,
    before: Seq<Observed<Key<DP>, VersionOf<DP>>>,
    after: Seq<Observed<Key<DP>, VersionOf<DP>>>,
    k: Key<DP>,
    v: VersionOf<DP>,
    c: int,
)
    requires
        is_traced::<DP, O>(dp, earlier, solver, before, after),
        after.len() > before.len(),
        after.last() is VersionChoice,
        after.last()->VersionChoice_0 == k,
        after.last()->VersionChoice_1 == v,
        solver.wf(dp),
        solver.same_problem(earlier),
        0 <= c < solver.state.clauses().len(),
        search::satisfied_given(
            solver.state.clauses()[c],
            solver.state.entries(),
            k,
            Some(v),
        ),
    ensures
        has_turned_down::<DP, O>(dp, earlier, before, after),
{
    let clause = solver.state.clauses()[c];
    let trail = solver.state.entries();
    assert forall|s: Selection<DP>| #[trigger]
        problem::is_solution(dp, earlier.root(), earlier.version(), s) && problem::avoids(
            earlier.exclusions(),
            s,
        ) && trace::fits(solver.steps(), s) implies s.get(k) != Some(v) by {
        if s.get(k) == Some(v) {
            solver.lemma_store_is_avoided(dp, c, s);
            assert forall|i: int| 0 <= i < clause.len() implies (#[trigger] clause[i]).1.contains(
                s.get(clause[i].0),
            ) by {
                assert(search::certain_given(clause[i], trail, k, Some(v)));
                trace::lemma_steps_of(trail, clause[i].0);
                assert(trace::open_states(solver.steps(), clause[i].0).contains(
                    s.get(clause[i].0),
                ));
            }
            assert(search::violates(clause, s));
        }
    }
    lemma_turned_down::<DP, O>(dp, earlier, solver, before, after, k, v);
}

/// An event that is no tree leaves it known where everything comes from, and so does a solver that
/// knows more single facts.
proof fn lemma_sourced<DP: DependencyProvider>(
    dp: DP,
    earlier: SolverState<DP>,
    solver: SolverState<DP>,
    later: SolverState<DP>,
    before: Seq<Observed<Key<DP>, VersionOf<DP>>>,
    after: Seq<Observed<Key<DP>, VersionOf<DP>>>,
    longer: Seq<Observed<Key<DP>, VersionOf<DP>>>,
)
    requires
        is_sourced(dp, earlier, solver, before, after),
        before.len() <= after.len(),
        later.state.store@ == solver.state.store@ || later.state.grows_by_facts(solver.state),
        after.is_prefix_of(longer),
        forall|i: int|
            after.len() <= i < longer.len() ==> !observer::holds_tree(#[trigger] longer[i]),
    ensures
        is_sourced(dp, earlier, later, before, longer),
{
    reveal(is_sourced);
    let start = before.len() as int;
    if earlier.holds_facts() {
        let fact = problem::facts(dp, earlier.root(), earlier.version(), earlier.exclusions());
        assert forall|c: int| 0 <= c < later.state.store@.len() implies
            later.state.store@[c].tree.is_fact() || observer::is_told_back(
            start,
            longer.len() as int,
            longer,
            #[trigger] later.state.cause_told(c),
        ) by {
            if c < solver.state.store@.len() {
                if later.state.store@ != solver.state.store@ {
                    assert(solver.state.store@[c] == later.state.store@.subrange(
                        0,
                        solver.state.store@.len() as int,
                    )[c]);
                }
                assert(solver.state.store@[c] == later.state.store@[c]);
                assert(solver.state.cause_told(c) == later.state.cause_told(c));
                if !solver.state.store@[c].tree.is_fact() {
                    observer::lemma_told_back(
                        start,
                        after.len() as int,
                        after,
                        start,
                        longer.len() as int,
                        longer,
                        later.state.cause_told(c),
                    );
                }
            }
        }
        assert forall|i: int|
            before.len() <= i < longer.len() && ((#[trigger] longer[i]) is Derivation
                || longer[i] is Conflict) implies observer::is_single_fact(
            observer::cause_of(longer[i]),
            fact,
        ) || observer::is_told_back(start, i, longer, observer::cause_of(longer[i])) by {
            let cause = observer::cause_of(longer[i]);
            if i >= after.len() {
                assert(!observer::holds_tree(longer[i]));
            }
            assert(after[i] == longer.subrange(0, after.len() as int)[i]);
            if !observer::is_single_fact(cause, fact) {
                observer::lemma_told_back(start, i, after, start, i, longer, cause);
            }
        }
    }
}

/// Propagation leaves it known where everything comes from.
proof fn lemma_sourced_propagation<
    DP: DependencyProvider,
    O: SolverObserver<DP::P, DP::VS, DP::M>,
>(
    dp: DP,
    earlier: SolverState<DP>,
    solver: SolverState<DP>,
    later: SolverState<DP>,
    a: Seq<Observed<Key<DP>, VersionOf<DP>>>,
    b: Seq<Observed<Key<DP>, VersionOf<DP>>>,
    c: Seq<Observed<Key<DP>, VersionOf<DP>>>,
)
    requires
        observer::always_asks::<DP::P, DP::VS, DP::M, O>(),
        is_sourced(dp, earlier, solver, a, b),
        solver.wf(dp),
        solver.same_problem(earlier),
        solver.state.store@.is_prefix_of(later.state.store@),
        a.is_prefix_of(b),
        b.is_prefix_of(c),
        state::draws_on::<DP::P, DP::VS, DP::M, O>(solver.state, later.state, b, c),
    ensures
        is_sourced(dp, earlier, later, a, c),
{
    reveal(is_sourced);
    reveal(state::draws_on);
    let start = a.len() as int;
    assert(c =~= c.subrange(0, c.len() as int));
    if earlier.holds_facts() {
        let fact = problem::facts(dp, earlier.root(), earlier.version(), earlier.exclusions());
        assert(solver.state.rests_on(fact));
        assert forall|x: int| 0 <= x < later.state.store@.len() implies
            later.state.store@[x].tree.is_fact() || observer::is_told_back(
            start,
            c.len() as int,
            c,
            #[trigger] later.state.cause_told(x),
        ) by {
            if x < solver.state.store@.len() {
                assert(solver.state.store@[x] == later.state.store@.subrange(
                    0,
                    solver.state.store@.len() as int,
                )[x]);
                assert(solver.state.cause_told(x) == later.state.cause_told(x));
                if !solver.state.store@[x].tree.is_fact() {
                    observer::lemma_told_back(
                        start,
                        b.len() as int,
                        b,
                        start,
                        c.len() as int,
                        c,
                        later.state.cause_told(x),
                    );
                }
            } else {
                observer::lemma_told_back(
                    b.len() as int,
                    c.len() as int,
                    c,
                    start,
                    c.len() as int,
                    c,
                    later.state.cause_told(x),
                );
            }
        }
        assert forall|i: int|
            a.len() <= i < c.len() && ((#[trigger] c[i]) is Derivation || c[i] is Conflict) implies
            observer::is_single_fact(observer::cause_of(c[i]), fact) || observer::is_told_back(
            start,
            i,
            c,
            observer::cause_of(c[i]),
        ) by {
            let cause = observer::cause_of(c[i]);
            if i < b.len() {
                assert(b[i] == c.subrange(0, b.len() as int)[i]);
                assert(b[i] == c[i]);
                if !observer::is_single_fact(cause, fact) {
                    observer::lemma_told_back(start, i, b, start, i, c, cause);
                }
            } else if solver.state.holds_cause(cause) {
                let x = choose|x: int|
                    0 <= x < solver.state.store@.len() && #[trigger] solver.state.cause_told(x)
                        == cause;
                if solver.state.store@[x].tree.is_fact() {
                    assert(solver.state.store@[x].tree.rests_on(fact));
                    assert(fact(solver.state.store@[x].tree.fact()));
                } else {
                    observer::lemma_told_back(start, b.len() as int, b, start, i, c, cause);
                }
            } else {
                observer::lemma_told_back(b.len() as int, i, c, start, i, c, cause);
            }
        }
    }
}

/// Whoever is told of everything can retrace the steps of the solver. Every event is one that can
/// happen after them; and a version that is chosen is decided on, unless no solution that fits the
/// steps selects it.
pub open spec fn retells<DP: DependencyProvider, O: SolverObserver<DP::P, DP::VS, DP::M>>(
    dp: DP,
    root: Key<DP>,
    version: VersionOf<DP>,
    exclusions: Seq<Clause<Key<DP>, VersionOf<DP>>>,
    steps: Seq<Step<Key<DP>, VersionOf<DP>>>,
    before: Seq<Observed<Key<DP>, VersionOf<DP>>>,
    after: Seq<Observed<Key<DP>, VersionOf<DP>>>,
) -> bool {
    observer::always_asks::<DP::P, DP::VS, DP::M, O>() && observer::levels_fit(
        before.len() as int,
        after,
    ) ==> {
        &&& trace::is_possible(
            problem::asks_for_one(dp) && exclusions.len() == 0,
            steps,
            before.len() as int,
            after,
        )
        &&& keeps_to_choices(dp, root, version, exclusions, steps, before, after)
    }
}

/// The steps of the solver can be retraced, and where it starts from single facts, so is every cause
/// one or was told before.
#[verifier::opaque]
pub open spec fn is_retraceable<
    DP: DependencyProvider,
    O: SolverObserver<DP::P, DP::VS, DP::M>,
>(
    dp: DP,
    earlier: SolverState<DP>,
    before: Seq<Observed<Key<DP>, VersionOf<DP>>>,
    after: Seq<Observed<Key<DP>, VersionOf<DP>>>,
) -> bool {
    &&& retells::<DP, O>(
        dp,
        earlier.root(),
        earlier.version(),
        earlier.exclusions(),
        earlier.steps(),
        before,
        after,
    )
    &&& observer::always_asks::<DP::P, DP::VS, DP::M, O>() && earlier.holds_facts()
        ==> observer::causes_are_sourced(
        before,
        after,
        problem::facts(dp, earlier.root(), earlier.version(), earlier.exclusions()),
    )
}

/// What can be traced can be retraced.
proof fn lemma_retraceable<DP: DependencyProvider, O: SolverObserver<DP::P, DP::VS, DP::M>>(
    dp: DP,
    earlier: SolverState<DP>,
    solver: SolverState<DP>,
    before: Seq<Observed<Key<DP>, VersionOf<DP>>>,
    after: Seq<Observed<Key<DP>, VersionOf<DP>>>,
)
    requires
        is_traced::<DP, O>(dp, earlier, solver, before, after),
    ensures
        is_retraceable::<DP, O>(dp, earlier, before, after),
{
    reveal(is_traced);
    reveal(is_retraceable);
    reveal(is_sourced);
    reveal(trace::leads);
}

/// Whoever is told of everything from the beginning was told why a version was not allowed when its
/// package was chosen, unless something asks for one of several packages to be selected.
#[verifier::opaque]
pub open spec fn is_explained<DP: DependencyProvider, O: SolverObserver<DP::P, DP::VS, DP::M>>(
    dp: DP,
    earlier: SolverState<DP>,
    before: Seq<Observed<Key<DP>, VersionOf<DP>>>,
    after: Seq<Observed<Key<DP>, VersionOf<DP>>>,
) -> bool {
    observer::always_asks::<DP::P, DP::VS, DP::M, O>() && earlier.is_blank() && earlier.is_plain(dp)
        ==> observer::explains_choices(before.len() as int, after)
}

proof fn lemma_traced_propagation<
    DP: DependencyProvider,
    O: SolverObserver<DP::P, DP::VS, DP::M>,
>(
    dp: DP,
    earlier: SolverState<DP>,
    solver: SolverState<DP>,
    later: SolverState<DP>,
    a: Seq<Observed<Key<DP>, VersionOf<DP>>>,
    b: Seq<Observed<Key<DP>, VersionOf<DP>>>,
    c: Seq<Observed<Key<DP>, VersionOf<DP>>>,
)
    requires
        is_traced::<DP, O>(dp, earlier, solver, a, b),
        is_explained::<DP, O>(dp, earlier, a, b),
        has_turned_down::<DP, O>(dp, earlier, a, b),
        solver.wf(dp),
        solver.same_problem(earlier),
        solver.state.store@.is_prefix_of(later.state.store@),
        state::draws_on::<DP::P, DP::VS, DP::M, O>(solver.state, later.state, b, c),
        a.is_prefix_of(b),
        b.is_prefix_of(c),
        forall|i: int| b.len() <= i < c.len() ==> observer::holds_tree(#[trigger] c[i]),
        observer::always_asks::<DP::P, DP::VS, DP::M, O>() ==> state::trail_told(
            solver.state.entries(),
            later.state.entries(),
            b,
            c,
        ),
        state::are_retold::<DP::P, DP::VS, DP::M, O>(
            solver.state.entries(),
            later.state.entries(),
            b,
            c,
        ),
    ensures
        has_turned_down::<DP, O>(dp, earlier, a, c),
        is_retraceable::<DP, O>(dp, earlier, a, c),
        is_traced::<DP, O>(dp, earlier, later, a, c),
        is_explained::<DP, O>(dp, earlier, a, c),
{
    reveal(is_traced);
    reveal(is_explained);
    if observer::always_asks::<DP::P, DP::VS, DP::M, O>() {
        state::lemma_trail_told(
            earlier.state.entries(),
            solver.state.entries(),
            later.state.entries(),
            a,
            b,
            c,
        );
        assert(trace::leads(earlier.is_plain(dp), solver.steps(), later.steps(), b, c));
        trace::lemma_leads_chain(
            earlier.is_plain(dp),
            earlier.steps(),
            solver.steps(),
            later.steps(),
            a,
            b,
            c,
        );
        if c.len() == b.len() {
            assert(b =~= c);
        }
        lemma_sourced_propagation::<DP, O>(dp, earlier, solver, later, a, b, c);
        if observer::levels_fit(a.len() as int, c) {
            assert forall|i: int| b.len() <= i < c.len() - 1 implies !((
            #[trigger] c[i]) is VersionChoice) by {
                assert(observer::holds_tree(c[i]));
            }
            assert forall|i: int| b.len() <= i < c.len() implies !((
            #[trigger] c[i]) is PackageChoice) by {
                assert(observer::holds_tree(c[i]));
            }
            lemma_keeps_to_choices::<DP, O>(dp, earlier, solver, a, b, c);
        }
        if earlier.is_blank() && earlier.is_plain(dp) {
            assert forall|i: int, v: VersionOf<DP>|
                b.len() <= i < c.len() && (#[trigger] c[i]) is PackageChoice
                    && !#[trigger] c[i]->PackageChoice_1.contains(v) implies
                observer::is_ruled_out(a.len() as int, c, i, c[i]->PackageChoice_0, Some(v)) by {
                assert(observer::holds_tree(c[i]));
            }
            observer::lemma_explains_later(a.len() as int, b, c);
        }
    }
    if c.len() == b.len() {
        assert(b =~= c);
    } else {
        reveal(has_turned_down);
        assert(observer::holds_tree(c[c.len() - 1]));
    }
    lemma_retraceable::<DP, O>(dp, earlier, later, a, c);
}

proof fn lemma_traced_same<DP: DependencyProvider, O: SolverObserver<DP::P, DP::VS, DP::M>>(
    dp: DP,
    earlier: SolverState<DP>,
    solver: SolverState<DP>,
    later: SolverState<DP>,
    before: Seq<Observed<Key<DP>, VersionOf<DP>>>,
    after: Seq<Observed<Key<DP>, VersionOf<DP>>>,
)
    requires
        is_traced::<DP, O>(dp, earlier, solver, before, after),
        later.state.trail@ == solver.state.trail@,
        later.state.store@ == solver.state.store@ || later.state.grows_by_facts(solver.state),
        before.len() <= after.len(),
    ensures
        is_traced::<DP, O>(dp, earlier, later, before, after),
{
    reveal(is_traced);
    assert(after =~= after.subrange(0, after.len() as int));
    if observer::always_asks::<DP::P, DP::VS, DP::M, O>() {
        lemma_sourced(dp, earlier, solver, later, before, after, after);
    }
}

/// A decision is no derivation.
proof fn lemma_traced_decision<DP: DependencyProvider, O: SolverObserver<DP::P, DP::VS, DP::M>>(
    dp: DP,
    earlier: SolverState<DP>,
    solver: SolverState<DP>,
    later: SolverState<DP>,
    before: Seq<Observed<Key<DP>, VersionOf<DP>>>,
    after: Seq<Observed<Key<DP>, VersionOf<DP>>>,
    k: Key<DP>,
    v: VersionOf<DP>,
)
    requires
        is_traced::<DP, O>(dp, earlier, solver, before, after),
        is_explained::<DP, O>(dp, earlier, before, after),
        before.len() <= after.len(),
        later.ok(),
        later.state.entries().len() > 0,
        later.state.entries().drop_last() == solver.state.entries(),
        later.state.entries().last().cause is None,
        later.decided() == solver.decided().push((k, v)),
        later.state.store@ == solver.state.store@ || later.state.grows_by_facts(solver.state),
    ensures
        ({
            let o = Observed::Decision(k, v, observer::level_told(later.decided().len() as int));
            &&& is_traced::<DP, O>(dp, earlier, later, before, after.push(o))
            &&& is_explained::<DP, O>(dp, earlier, before, after.push(o))
            &&& is_retraceable::<DP, O>(dp, earlier, before, after.push(o))
            &&& has_turned_down::<DP, O>(dp, earlier, before, after.push(o))
        }),
{
    reveal(is_traced);
    reveal(is_explained);
    let o = Observed::Decision(k, v, observer::level_told(later.decided().len() as int));
    let longer = after.push(o);
    assert(after =~= longer.subrange(0, after.len() as int));
    if observer::always_asks::<DP::P, DP::VS, DP::M, O>() {
        let shorter = solver.state.entries();
        let trail = later.state.entries();
        let n = trail.len() - 1;
        assert(shorter =~= shorter.subrange(0, shorter.len() as int));
        assert(after =~= after.subrange(0, after.len() as int));
        state::lemma_trail_told_push(shorter, trail, after, after);
        state::lemma_trail_told(earlier.state.entries(), shorter, trail, before, after, after);
        state::lemma_trail_still_told(earlier.state.entries(), trail, before, after, o);
        if earlier.is_blank() && earlier.is_plain(dp) {
            observer::lemma_explains_later(before.len() as int, after, longer);
        }
        let last = later.state.trail@[n];
        assert(shorter =~= trail.take(n));
        search::lemma_trail_entry(later.state.atoms@, later.state.clauses(), trail, n);
        state::lemma_decisions(later.state.trail@);
        trace::lemma_steps_of(shorter, k);
        assert(later.decided().last() == (k, v));
        assert(last.cause is None);
        assert(state::decisions(later.state.trail@).last() == (last.package@, last.version->0));
        assert(last.term@ == term::only(v));
        assert(term::only(v) =~= set![Some(v)]);
        assert(term::only(v).contains(Some(v)));
        assert(trail[n].level == search::level(shorter) + 1);
        assert(trace::next_steps(solver.steps(), o) =~= later.steps());
        trace::lemma_leads_push(
            earlier.is_plain(dp),
            earlier.steps(),
            solver.steps(),
            before,
            after,
            o,
            later.steps(),
        );
        lemma_sourced(dp, earlier, solver, later, before, after, longer);
        if observer::levels_fit(before.len() as int, longer) {
            lemma_keeps_to_choices::<DP, O>(dp, earlier, solver, before, after, longer);
        }
    }
    reveal(has_turned_down);
    lemma_retraceable::<DP, O>(dp, earlier, later, before, longer);
}

/// A version is chosen, or there is none.
proof fn lemma_traced_push<DP: DependencyProvider, O: SolverObserver<DP::P, DP::VS, DP::M>>(
    dp: DP,
    earlier: SolverState<DP>,
    solver: SolverState<DP>,
    before: Seq<Observed<Key<DP>, VersionOf<DP>>>,
    after: Seq<Observed<Key<DP>, VersionOf<DP>>>,
    o: Observed<Key<DP>, VersionOf<DP>>,
)
    requires
        is_traced::<DP, O>(dp, earlier, solver, before, after),
        is_explained::<DP, O>(dp, earlier, before, after),
        before.len() <= after.len(),
        o is VersionChoice || o is NoVersion,
        after.len() > before.len(),
        after.last() is PackageChoice,
    ensures
        o is NoVersion ==> has_turned_down::<DP, O>(dp, earlier, before, after.push(o)),
        is_retraceable::<DP, O>(dp, earlier, before, after.push(o)),
        is_traced::<DP, O>(dp, earlier, solver, before, after.push(o)),
        is_explained::<DP, O>(dp, earlier, before, after.push(o)),
{
    reveal(is_traced);
    reveal(is_explained);
    state::lemma_trail_still_told(
        earlier.state.entries(),
        solver.state.entries(),
        before,
        after,
        o,
    );
    let longer = after.push(o);
    assert(after =~= longer.subrange(0, after.len() as int));
    if observer::always_asks::<DP::P, DP::VS, DP::M, O>() {
        if earlier.is_blank() && earlier.is_plain(dp) {
            observer::lemma_explains_later(before.len() as int, after, longer);
        }
        trace::lemma_leads_push(
            earlier.is_plain(dp),
            earlier.steps(),
            solver.steps(),
            before,
            after,
            o,
            solver.steps(),
        );
        lemma_sourced(dp, earlier, solver, solver, before, after, longer);
        reveal(has_turned_down);
        if observer::levels_fit(before.len() as int, longer) {
            lemma_keeps_to_choices::<DP, O>(dp, earlier, solver, before, after, longer);
        }
    }
    reveal(has_turned_down);
    lemma_retraceable::<DP, O>(dp, earlier, solver, before, longer);
}

/// What is not left open for the package that is chosen was ruled out by a derivation.
proof fn lemma_traced_choice<DP: DependencyProvider, O: SolverObserver<DP::P, DP::VS, DP::M>>(
    dp: DP,
    earlier: SolverState<DP>,
    solver: SolverState<DP>,
    before: Seq<Observed<Key<DP>, VersionOf<DP>>>,
    after: Seq<Observed<Key<DP>, VersionOf<DP>>>,
    k: Key<DP>,
    range: Set<VersionOf<DP>>,
)
    requires
        is_traced::<DP, O>(dp, earlier, solver, before, after),
        is_explained::<DP, O>(dp, earlier, before, after),
        has_turned_down::<DP, O>(dp, earlier, before, after),
        before.len() <= after.len(),
        solver.ok(),
        follows_up(dp, solver.state.entries(), None),
        solver.picks(dp, k, range),
        earlier.is_plain(dp) ==> !search::open_states(solver.state.entries(), k).contains(None),
    ensures
        is_traced::<DP, O>(
            dp,
            earlier,
            solver,
            before,
            after.push(Observed::PackageChoice(k, range)),
        ),
        is_retraceable::<DP, O>(
            dp,
            earlier,
            before,
            after.push(Observed::PackageChoice(k, range)),
        ),
        is_explained::<DP, O>(
            dp,
            earlier,
            before,
            after.push(Observed::PackageChoice(k, range)),
        ),
{
    reveal(is_traced);
    reveal(is_explained);
    let o = Observed::PackageChoice(k, range);
    let longer = after.push(o);
    let start = before.len() as int;
    let n = after.len() as int;
    let trail = solver.state.entries();
    state::lemma_trail_still_told(earlier.state.entries(), trail, before, after, o);
    assert(after =~= longer.subrange(0, after.len() as int));
    if observer::always_asks::<DP::P, DP::VS, DP::M, O>() {
        trace::lemma_steps_of(trail, k);
        assert forall|v: VersionOf<DP>| #[trigger] range.contains(v) implies trace::open_states(
            solver.steps(),
            k,
        ).contains(Some(v)) by {
            assert(term::selected_in(range).contains(Some(v)));
        }
        if earlier.is_plain(dp) {
            assert(solver.state.is_pending(k));
            assert(!solver.state.all_chosen());
            assert(range == solver.state.open_versions(k));
        }
        trace::lemma_leads_push(
            earlier.is_plain(dp),
            earlier.steps(),
            solver.steps(),
            before,
            after,
            o,
            solver.steps(),
        );
        lemma_has_propagated(dp, solver);
        lemma_sourced(dp, earlier, solver, solver, before, after, longer);
        if observer::levels_fit(before.len() as int, longer) {
            lemma_keeps_to_choices::<DP, O>(dp, earlier, solver, before, after, longer);
        }
    }
    lemma_retraceable::<DP, O>(dp, earlier, solver, before, longer);
    if observer::always_asks::<DP::P, DP::VS, DP::M, O>() && earlier.is_blank()
        && earlier.is_plain(dp) {
        assert(solver.state.is_pending(k));
        assert(!solver.state.all_chosen());
        assert forall|i: int, v: VersionOf<DP>|
            after.len() <= i < longer.len() && (#[trigger] longer[i]) is PackageChoice
                && !#[trigger] longer[i]->PackageChoice_1.contains(v) implies
            observer::is_ruled_out(start, longer, i, longer[i]->PackageChoice_0, Some(v)) by {
            assert(longer[i] == o);
            assert(!solver.state.open_versions(k).contains(v));
            assert(!search::open_states(trail, k).contains(Some(v)));
            let t = state::lemma_ruled_out(trail, k, Some(v));
            assert(trail[t].cause is Some) by {
                if trail[t].cause is None {
                    assert(search::decided(trail, k));
                }
            }
            assert(earlier.steps().len() == earlier.state.entries().len());
            assert(state::step_told(trail, t, before, after));
            let j = choose|j: int|
                before.len() <= j < after.len() && (#[trigger] after[j]) is Derivation
                    && after[j]->Derivation_0 == trail[t].key && after[j]->Derivation_1
                    == state::left_before(trail, t) && after[j]->Derivation_2 == trail[t].set;
            assert(longer[j] == after[j]);
        }
        observer::lemma_explains_later(start, after, longer);
    }
}

/// Where nothing has been told yet, nothing has changed.
proof fn lemma_nothing_told<DP: DependencyProvider, O: SolverObserver<DP::P, DP::VS, DP::M>>(
    dp: DP,
    solver: SolverState<DP>,
    log: Seq<Observed<Key<DP>, VersionOf<DP>>>,
)
    ensures
        tells::<DP, O>(dp, solver.decided(), solver.decided(), log, log),
        observer::follows_path::<DP::P, DP::VS, DP::M, O>(log, log),
        problem::are_answers(dp, log, log),
        counts_setbacks::<DP, O>(dp, solver, solver, log, log),
        are_first_choices::<DP, O>(dp, solver, log, log),
        is_traced::<DP, O>(dp, solver, solver, log, log),
        is_retraceable::<DP, O>(dp, solver, log, log),
        has_turned_down::<DP, O>(dp, solver, log, log),
        is_explained::<DP, O>(dp, solver, log, log),
{
    reveal(is_traced);
    reveal(is_explained);
    reveal(tells);
    reveal(counts_up_to);
    let none = Seq::<Cause<Key<DP>, VersionOf<DP>>>::empty();
    assert(are_facts(dp, solver, none));
    reveal(are_first_choices);
    assert(log.is_prefix_of(log));
    observer::lemma_no_levels(
        solver.decided().len() as int,
        log,
        observer::always_asks::<DP::P, DP::VS, DP::M, O>(),
    );
    trace::lemma_leads_nowhere(solver.is_plain(dp), solver.steps(), log);
    reveal(is_sourced);
    reveal(has_turned_down);
    lemma_retraceable::<DP, O>(dp, solver, solver, log, log);
}

/// What leaves the counts as they are.
proof fn lemma_counts_same<DP: DependencyProvider, O: SolverObserver<DP::P, DP::VS, DP::M>>(
    dp: DP,
    earlier: SolverState<DP>,
    solver: SolverState<DP>,
    later: SolverState<DP>,
    before: Seq<Observed<Key<DP>, VersionOf<DP>>>,
    after: Seq<Observed<Key<DP>, VersionOf<DP>>>,
    list: Seq<(Key<DP>, VersionOf<DP>)>,
)
    requires
        counts_up_to::<DP, O>(dp, earlier, solver, before, after, list),
        forall|k: Key<DP>| #[trigger] later.counts(k) == solver.counts(k),
    ensures
        counts_up_to::<DP, O>(dp, earlier, later, before, after, list),
{
    reveal(counts_up_to);
    if observer::always_asks::<DP::P, DP::VS, DP::M, O>() {
        let held = choose|held: Seq<Cause<Key<DP>, VersionOf<DP>>>|
            {
                &&& held.len() == list.len()
                &&& #[trigger] are_facts(dp, earlier, held)
                &&& forall|k: Key<DP>|
                    {
                        let after = after_rejections(earlier.counts(k), list, held, k);
                        &&& (#[trigger] solver.counts(k)).2 == after.2
                        &&& solver.counts(k).3 == after.3
                    }
            };
        assert(are_facts(dp, earlier, held));
        assert forall|k: Key<DP>|
            {
                let after = after_rejections(earlier.counts(k), list, held, k);
                &&& (#[trigger] later.counts(k)).2 == after.2
                &&& later.counts(k).3 == after.3
            } by {
            assert(later.counts(k) == solver.counts(k));
        }
        assert(counts_rejections(dp, earlier, later, list));
        assert forall|k: Key<DP>|
            {
                let told = after_setbacks(
                    earlier.counts(k),
                    observer::setbacks(before.len() as int, after),
                    k,
                );
                &&& (#[trigger] later.counts(k)).0 == told.0
                &&& later.counts(k).1 == told.1
            } by {
            assert(later.counts(k) == solver.counts(k));
        }
    }
}

/// A choice or a decision is no setback.
proof fn lemma_counts_push<DP: DependencyProvider, O: SolverObserver<DP::P, DP::VS, DP::M>>(
    dp: DP,
    earlier: SolverState<DP>,
    solver: SolverState<DP>,
    before: Seq<Observed<Key<DP>, VersionOf<DP>>>,
    after: Seq<Observed<Key<DP>, VersionOf<DP>>>,
    list: Seq<(Key<DP>, VersionOf<DP>)>,
    o: Observed<Key<DP>, VersionOf<DP>>,
)
    requires
        counts_up_to::<DP, O>(dp, earlier, solver, before, after, list),
        before.len() <= after.len(),
        !observer::holds_tree(o),
    ensures
        counts_up_to::<DP, O>(dp, earlier, solver, before, after.push(o), list),
        o is PackageChoice || o is NoVersion ==> rejected(
            dp,
            before.len() as int,
            after.push(o),
        ) == rejected(dp, before.len() as int, after),
{
    reveal(counts_up_to);
    assert(after.push(o).drop_last() =~= after);
    if observer::always_asks::<DP::P, DP::VS, DP::M, O>() {
        observer::lemma_setbacks_push(before, after, o);
    }
}

/// A version that is chosen counts as rejected until it is decided on, if its dependencies are known.
proof fn lemma_rejected<DP: DependencyProvider>(
    dp: DP,
    start: int,
    chosen: Seq<Observed<Key<DP>, VersionOf<DP>>>,
    k: Key<DP>,
    v: VersionOf<DP>,
    level: u32,
)
    requires
        0 <= start < chosen.len(),
        chosen.last() is VersionChoice,
        chosen.last()->VersionChoice_0 == k,
        chosen.last()->VersionChoice_1 == v,
    ensures
        dp.requirements(k, v) is None ==> rejected(dp, start, chosen) == rejected(
            dp,
            start,
            chosen.drop_last(),
        ),
        dp.requirements(k, v) is Some ==> rejected(dp, start, chosen) == rejected(
            dp,
            start,
            chosen.drop_last(),
        ).push((k, v)),
        rejected(dp, start, chosen.push(Observed::Decision(k, v, level))) == rejected(
            dp,
            start,
            chosen.drop_last(),
        ),
{
    let after = chosen.push(Observed::<Key<DP>, VersionOf<DP>>::Decision(k, v, level));
    let list = rejected(dp, start, chosen.drop_last());
    assert(after.drop_last() =~= chosen);
    assert(after.last() == Observed::<Key<DP>, VersionOf<DP>>::Decision(k, v, level));
    assert(list.push((k, v)).drop_last() =~= list);
    if dp.requirements(k, v) is Some {
        assert(rejected(dp, start, chosen) == list.push((k, v)));
        assert(rejected(dp, start, after) == rejected(dp, start, chosen).drop_last());
    } else {
        assert(rejected(dp, start, chosen) == list);
        assert(rejected(dp, start, after) == rejected(dp, start, chosen));
    }
}

/// A rejection is counted.
proof fn lemma_counts_rejected<DP: DependencyProvider, O: SolverObserver<DP::P, DP::VS, DP::M>>(
    dp: DP,
    earlier: SolverState<DP>,
    solver: SolverState<DP>,
    later: SolverState<DP>,
    before: Seq<Observed<Key<DP>, VersionOf<DP>>>,
    after: Seq<Observed<Key<DP>, VersionOf<DP>>>,
    list: Seq<(Key<DP>, VersionOf<DP>)>,
    k: Key<DP>,
    v: VersionOf<DP>,
    c: int,
)
    requires
        counts_up_to::<DP, O>(dp, earlier, solver, before, after, list),
        later.wf(dp),
        later.same_problem(earlier),
        0 <= c < later.state.store@.len(),
        later.state.store@[c].tree.is_fact(),
        forall|q: Key<DP>| #[trigger]
            later.counts(q) == tracker::after_conflict(
                solver.counts(q),
                q == k,
                search::mentions(later.state.clauses()[c], q),
                false,
            ),
    ensures
        counts_up_to::<DP, O>(dp, earlier, later, before, after, list.push((k, v))),
{
    reveal(counts_up_to);
    if observer::always_asks::<DP::P, DP::VS, DP::M, O>() {
        let more = list.push((k, v));
        let held = choose|held: Seq<Cause<Key<DP>, VersionOf<DP>>>|
            {
                &&& held.len() == list.len()
                &&& #[trigger] are_facts(dp, earlier, held)
                &&& forall|q: Key<DP>|
                    {
                        let after = after_rejections(earlier.counts(q), list, held, q);
                        &&& (#[trigger] solver.counts(q)).2 == after.2
                        &&& solver.counts(q).3 == after.3
                    }
            };
        let cause = later.state.cause_told(c);
        let causes = held.push(cause);
        let fact = problem::facts(dp, earlier.root(), earlier.version(), earlier.exclusions());
        assert(later.state.rests_on(fact));
        assert(later.state.store@[c].tree.rests_on(fact));
        assert(fact(later.state.store@[c].tree.fact()));
        assert(later.state.store@[c].justified());
        assert(later.state.clauses()[c] == later.state.store@[c].clause());
        assert(are_facts(dp, earlier, causes)) by {
            assert forall|j: int| 0 <= j < causes.len() implies observer::is_single_fact::<
                DP::P,
                DP::VS,
                DP::M,
            >(#[trigger] causes[j], fact) by {
                if j < held.len() {
                    assert(causes[j] == held[j]);
                }
            }
        }
        assert(more.drop_last() =~= list);
        assert(causes.drop_last() =~= held);
        assert forall|q: Key<DP>|
            {
                let told = after_setbacks(
                    earlier.counts(q),
                    observer::setbacks(before.len() as int, after),
                    q,
                );
                let counted = after_rejections(earlier.counts(q), more, causes, q);
                &&& (#[trigger] later.counts(q)).0 == told.0
                &&& later.counts(q).1 == told.1
                &&& later.counts(q).2 == counted.2
                &&& later.counts(q).3 == counted.3
            } by {
            let counted = after_rejections(earlier.counts(q), list, held, q);
            assert(solver.counts(q).2 == counted.2);
            assert(search::mentions(later.state.clauses()[c], q) == cause.named.contains(q));
        }
        assert(counts_rejections(dp, earlier, later, more));
    }
}

/// The decision at the place is one from before.
pub open spec fn is_kept<K, V>(made: Seq<(K, V)>, left: Seq<(K, V)>, d: int) -> bool {
    d < made.len() && left[d] == made[d]
}

/// The observer was told of the decision, on the level, and not that it was discarded.
pub open spec fn is_told_of<K, V>(
    before: Seq<Observed<K, V>>,
    after: Seq<Observed<K, V>>,
    decision: (K, V),
    level: int,
) -> bool {
    exists|i: int|
        before.len() <= i < after.len() && #[trigger] observer::stands(
            after,
            i,
            decision.0,
            decision.1,
        ) && after[i]->Decision_2 == observer::level_told(level)
}

/// Everything that is selected was decided before, or the observer was told of the decision and not
/// that it was discarded.
pub open spec fn is_accounted_for<K, V>(
    made: Seq<(K, V)>,
    before: Seq<Observed<K, V>>,
    after: Seq<Observed<K, V>>,
    s: Map<K, V>,
) -> bool {
    forall|k: K| #[trigger]
        s.dom().contains(k) ==> made.contains((k, s[k])) || observer::is_committed(
            before,
            after,
            k,
            s[k],
        )
}

/// What is selected are the decisions that are left, going by the log, and the levels in the log are
/// numbers of decisions.
pub open spec fn is_left<K, V>(
    made: Seq<(K, V)>,
    before: Seq<Observed<K, V>>,
    after: Seq<Observed<K, V>>,
    s: Map<K, V>,
) -> bool {
    let left = observer::replayed(made, before.len() as int, after);
    &&& observer::levels_are_told(made, before.len() as int, after)
    &&& forall|k: K, v: V| #[trigger] left.contains((k, v)) <==> s.get(k) == Some(v)
}

/// The log tells of the path from the decisions made before to those that are left.
#[verifier::opaque]
pub open spec fn tells<DP: DependencyProvider, O: SolverObserver<DP::P, DP::VS, DP::M>>(
    dp: DP,
    made: Seq<(Key<DP>, VersionOf<DP>)>,
    left: Seq<(Key<DP>, VersionOf<DP>)>,
    before: Seq<Observed<Key<DP>, VersionOf<DP>>>,
    after: Seq<Observed<Key<DP>, VersionOf<DP>>>,
) -> bool {
    &&& observer::follows_path::<DP::P, DP::VS, DP::M, O>(before, after)
    &&& problem::are_answers(dp, before, after)
    &&& observer::count_levels(
        made.len() as int,
        left.len() as int,
        before.len() as int,
        after,
        observer::always_asks::<DP::P, DP::VS, DP::M, O>(),
    )
    &&& forall|d: int|
        0 <= d < left.len() ==> #[trigger] is_kept(made, left, d) || is_told_of(
            before,
            after,
            left[d],
            d + 1,
        )
    &&& observer::always_asks::<DP::P, DP::VS, DP::M, O>() && observer::levels_fit(
        before.len() as int,
        after,
    ) ==> {
        &&& left == observer::replayed(made, before.len() as int, after)
        &&& observer::levels_are_told(made, before.len() as int, after)
    }
}

proof fn lemma_levels_fit<K, V>(start: int, after: Seq<Observed<K, V>>, longer: Seq<Observed<K, V>>)
    requires
        0 <= start,
        after.is_prefix_of(longer),
        observer::levels_fit(start, longer),
    ensures
        observer::levels_fit(start, after),
{
    assert forall|i: int| start <= i < after.len() && (#[trigger] after[i]) is Backtrack implies
        after[i]->Backtrack_0 < u32::MAX by {
        assert(after[i] == longer.subrange(0, after.len() as int)[i]);
        assert(longer[i] == after[i]);
    }
}

proof fn lemma_tells_propagation<
    DP: DependencyProvider,
    O: SolverObserver<DP::P, DP::VS, DP::M>,
>(
    dp: DP,
    made: Seq<(Key<DP>, VersionOf<DP>)>,
    earlier: Seq<(Key<DP>, VersionOf<DP>)>,
    left: Seq<(Key<DP>, VersionOf<DP>)>,
    a: Seq<Observed<Key<DP>, VersionOf<DP>>>,
    b: Seq<Observed<Key<DP>, VersionOf<DP>>>,
    c: Seq<Observed<Key<DP>, VersionOf<DP>>>,
    solver: SolverState<DP>,
)
    requires
        observer::causes_rest_on(
            b,
            c,
            problem::facts(dp, solver.root(), solver.version(), solver.exclusions()),
        ),
        tells::<DP, O>(dp, made, earlier, a, b),
        observer::at_rest(a, b),
        state::in_step::<DP::P, DP::VS, DP::M, O>(earlier, left, b, c),
    ensures
        tells::<DP, O>(dp, made, left, a, c),
        observer::at_rest(a, c),
        observer::follows_path::<DP::P, DP::VS, DP::M, O>(a, c),
        problem::are_answers(dp, a, c),
{
    reveal(tells);
    if c.len() > b.len() {
        assert(observer::holds_tree(c[c.len() - 1]));
    }
    observer::lemma_records_chain::<DP::P, DP::VS, DP::M, O>(a, b, c);
    observer::lemma_levels_chain(
        made.len() as int,
        earlier.len() as int,
        left.len() as int,
        a.len() as int,
        b,
        c,
        observer::always_asks::<DP::P, DP::VS, DP::M, O>(),
    );
    assert forall|i: int| 0 <= i < b.len() implies b[i] == c[i] by {
        assert(b[i] == c.subrange(0, b.len() as int)[i]);
    }
    assert forall|i: int| a.len() <= i < c.len() implies problem::is_answer(
        dp,
        #[trigger] c[i],
    ) by {
        if i < b.len() {
            assert(problem::is_answer(dp, b[i]));
        } else {
            assert(observer::holds_tree(c[i]));
            assert(observer::is_told_of_tree(
                observer::cause_of(c[i]),
                problem::facts(dp, solver.root(), solver.version(), solver.exclusions()),
            ));
        }
    }
    assert forall|d: int| 0 <= d < left.len() implies #[trigger] is_kept(made, left, d)
        || is_told_of(a, c, left[d], d + 1) by {
        assert(left[d] == earlier[d]);
        assert(is_kept(made, earlier, d) || is_told_of(a, b, earlier[d], d + 1));
        if !is_kept(made, earlier, d) {
            let i = choose|i: int|
                a.len() <= i < b.len() && #[trigger] observer::stands(
                    b,
                    i,
                    earlier[d].0,
                    earlier[d].1,
                ) && b[i]->Decision_2 == observer::level_told(d + 1);
            assert(observer::stands(c, i, left[d].0, left[d].1)) by {
                assert forall|j: int|
                    i < j < c.len() && (#[trigger] c[j]) is Backtrack implies c[j]->Backtrack_1
                    >= c[i]->Decision_2 by {
                    if j < b.len() {
                        assert(b[j] == c[j]);
                    }
                }
            }
        }
    }
    if observer::always_asks::<DP::P, DP::VS, DP::M, O>() && observer::levels_fit(
        a.len() as int,
        c,
    ) {
        lemma_levels_fit(a.len() as int, b, c);
        observer::lemma_replayed_chain(made, a, b, c);
        assert(observer::levels_fit(b.len() as int, c));
        assert forall|i: int| a.len() <= i < c.len() implies #[trigger] observer::is_level_told(
            made,
            a.len() as int,
            c,
            i,
        ) by {
            if i < b.len() {
                assert(observer::is_level_told(made, a.len() as int, b, i));
                assert(c.take(i) =~= b.take(i));
                assert(c.take(i + 1) =~= b.take(i + 1));
            } else {
                assert(observer::is_level_told(earlier, b.len() as int, c, i));
                assert(b =~= c.take(i).subrange(0, b.len() as int));
                observer::lemma_replayed_chain(made, a, b, c.take(i));
                assert(observer::holds_tree(c[i]));
            }
        }
    }
}

proof fn lemma_tells_choice<DP: DependencyProvider, O: SolverObserver<DP::P, DP::VS, DP::M>>(
    dp: DP,
    made: Seq<(Key<DP>, VersionOf<DP>)>,
    left: Seq<(Key<DP>, VersionOf<DP>)>,
    before: Seq<Observed<Key<DP>, VersionOf<DP>>>,
    after: Seq<Observed<Key<DP>, VersionOf<DP>>>,
    o: Observed<Key<DP>, VersionOf<DP>>,
)
    requires
        tells::<DP, O>(dp, made, left, before, after),
        observer::on_path(o),
        !observer::holds_tree(o),
        !(o is Decision),
        problem::is_answer(dp, o),
        observer::well_placed(before.len() as int, after.push(o), after.len() as int),
    ensures
        tells::<DP, O>(dp, made, left, before, after.push(o)),
        observer::follows_path::<DP::P, DP::VS, DP::M, O>(before, after.push(o)),
        problem::are_answers(dp, before, after.push(o)),
{
    reveal(tells);
    let longer = after.push(o);
    lemma_tells_push::<DP, O>(dp, made, left, before, after, o);
    assert(longer.drop_last() =~= after);
    observer::lemma_levels_push(
        made.len() as int,
        left.len() as int,
        left.len() as int,
        before.len() as int,
        after,
        o,
        observer::always_asks::<DP::P, DP::VS, DP::M, O>(),
    );
    if observer::always_asks::<DP::P, DP::VS, DP::M, O>() && observer::levels_fit(
        before.len() as int,
        longer,
    ) {
        assert(longer.take(longer.len() as int) =~= longer);
        assert forall|i: int| before.len() <= i < longer.len() implies #[trigger] observer::is_level_told(
            made,
            before.len() as int,
            longer,
            i,
        ) by {
            if i < after.len() {
                assert(observer::is_level_told(made, before.len() as int, after, i));
                assert(longer.take(i) =~= after.take(i));
                assert(longer.take(i + 1) =~= after.take(i + 1));
            }
        }
    }
}

proof fn lemma_tells_push<DP: DependencyProvider, O: SolverObserver<DP::P, DP::VS, DP::M>>(
    dp: DP,
    made: Seq<(Key<DP>, VersionOf<DP>)>,
    left: Seq<(Key<DP>, VersionOf<DP>)>,
    before: Seq<Observed<Key<DP>, VersionOf<DP>>>,
    after: Seq<Observed<Key<DP>, VersionOf<DP>>>,
    o: Observed<Key<DP>, VersionOf<DP>>,
)
    requires
        tells::<DP, O>(dp, made, left, before, after),
        observer::on_path(o),
        !observer::holds_tree(o),
        problem::is_answer(dp, o),
        observer::well_placed(before.len() as int, after.push(o), after.len() as int),
    ensures
        observer::follows_path::<DP::P, DP::VS, DP::M, O>(before, after.push(o)),
        problem::are_answers(dp, before, after.push(o)),
        forall|d: int|
            0 <= d < left.len() ==> #[trigger] is_kept(made, left, d) || is_told_of(
                before,
                after.push(o),
                left[d],
                d + 1,
            ),
        observer::levels_fit(before.len() as int, after.push(o)) ==> observer::levels_fit(
            before.len() as int,
            after,
        ),
{
    reveal(tells);
    let longer = after.push(o);
    assert(after =~= longer.subrange(0, after.len() as int));
    observer::lemma_records_push::<DP::P, DP::VS, DP::M, O>(before, after, o);
    assert forall|i: int| before.len() <= i < longer.len() implies problem::is_answer(
        dp,
        #[trigger] longer[i],
    ) by {
        if i < after.len() {
            assert(longer[i] == after[i]);
        }
    }
    assert forall|d: int| 0 <= d < left.len() implies #[trigger] is_kept(made, left, d)
        || is_told_of(before, longer, left[d], d + 1) by {
        if !is_kept(made, left, d) {
            let i = choose|i: int|
                before.len() <= i < after.len() && #[trigger] observer::stands(
                    after,
                    i,
                    left[d].0,
                    left[d].1,
                ) && after[i]->Decision_2 == observer::level_told(d + 1);
            assert(longer[i] == after[i]);
            assert(observer::stands(longer, i, left[d].0, left[d].1)) by {
                assert forall|j: int|
                    i < j < longer.len() && (#[trigger] longer[j]) is Backtrack implies
                    longer[j]->Backtrack_1 >= longer[i]->Decision_2 by {
                    if j < after.len() {
                        assert(longer[j] == after[j]);
                    }
                }
            }
        }
    }
    if observer::levels_fit(before.len() as int, longer) {
        lemma_levels_fit(before.len() as int, after, longer);
    }
}

proof fn lemma_tells_decision<DP: DependencyProvider, O: SolverObserver<DP::P, DP::VS, DP::M>>(
    dp: DP,
    made: Seq<(Key<DP>, VersionOf<DP>)>,
    left: Seq<(Key<DP>, VersionOf<DP>)>,
    before: Seq<Observed<Key<DP>, VersionOf<DP>>>,
    after: Seq<Observed<Key<DP>, VersionOf<DP>>>,
    o: Observed<Key<DP>, VersionOf<DP>>,
)
    requires
        tells::<DP, O>(dp, made, left, before, after),
        o is Decision,
        o->Decision_2 == observer::level_told(left.len() as int + 1),
        observer::well_placed(before.len() as int, after.push(o), after.len() as int),
    ensures
        tells::<DP, O>(
            dp,
            made,
            left.push((o->Decision_0, o->Decision_1)),
            before,
            after.push(o),
        ),
        observer::follows_path::<DP::P, DP::VS, DP::M, O>(before, after.push(o)),
        problem::are_answers(dp, before, after.push(o)),
{
    reveal(tells);
    let longer = after.push(o);
    let more = left.push((o->Decision_0, o->Decision_1));
    lemma_tells_push::<DP, O>(dp, made, left, before, after, o);
    assert(longer.drop_last() =~= after);
    observer::lemma_levels_push(
        made.len() as int,
        left.len() as int,
        more.len() as int,
        before.len() as int,
        after,
        o,
        observer::always_asks::<DP::P, DP::VS, DP::M, O>(),
    );
    assert forall|d: int| 0 <= d < more.len() implies #[trigger] is_kept(made, more, d)
        || is_told_of(before, longer, more[d], d + 1) by {
        if d < left.len() {
            assert(more[d] == left[d]);
            assert(is_kept(made, left, d) || is_told_of(before, longer, left[d], d + 1));
        } else {
            assert(longer[after.len() as int] == o);
            assert(observer::stands(longer, after.len() as int, more[d].0, more[d].1));
        }
    }
    if observer::always_asks::<DP::P, DP::VS, DP::M, O>() && observer::levels_fit(
        before.len() as int,
        longer,
    ) {
        assert(longer.take(longer.len() as int) =~= longer);
        assert forall|i: int| before.len() <= i < longer.len() implies #[trigger] observer::is_level_told(
            made,
            before.len() as int,
            longer,
            i,
        ) by {
            if i < after.len() {
                assert(observer::is_level_told(made, before.len() as int, after, i));
                assert(longer.take(i) =~= after.take(i));
                assert(longer.take(i + 1) =~= after.take(i + 1));
            }
        }
    }
}

impl<DP: DependencyProvider> SolverState<DP> {
    /// The priority of the package as things stand.
    pub open spec fn rank(self, dp: DP, k: Key<DP>) -> DP::Priority {
        dp.priority(k, trace::open_versions(self.steps(), k), self.counts(k))
    }

    /// The steps leave open for other packages only what the decided versions require of them.
    pub open spec fn meets_requirements(self, dp: DP) -> bool {
        forall|k: Key<DP>, v: VersionOf<DP>, i: int|
            #![trigger self.decided().contains((k, v)), dp.requirements(k, v)->0[i]]
            self.decided().contains((k, v)) && 0 <= i < dp.requirements(k, v)->0.len() ==> {
                let q = dp.requirements(k, v)->0[i];
                trace::open_states(self.steps(), q.0).subset_of(term::selected_in(q.1))
            }
    }

    /// The one package has a higher priority than the other one.
    pub open spec fn ranks_above(self, dp: DP) -> spec_fn(Key<DP>, Key<DP>) -> bool {
        |a: Key<DP>, b: Key<DP>| priority::is_higher(self.rank(dp, a), self.rank(dp, b))
    }

    /// What the decided versions require was derived. The package is not decided, and the range is
    /// left open for it. Where packages must be selected, the range is all that is left open, and the
    /// package is one of those, and of highest priority, if priorities are ordered. It is the one that
    /// leads them in the order in which they were narrowed first, if priorities can be compared.
    pub open spec fn chooses(self, dp: DP, k: Key<DP>, range: Set<VersionOf<DP>>) -> bool {
        &&& has_propagated(dp, self.steps())
        &&& self.meets_requirements(dp)
        &&& !trace::is_decided(self.steps(), k)
        &&& range.subset_of(trace::open_versions(self.steps(), k))
        &&& forall|other: Key<DP>| #[trigger]
            trace::is_pending(self.steps(), other) ==> {
                &&& range == trace::open_versions(self.steps(), k)
                &&& priority::are_ordered::<DP::Priority>() ==> {
                    &&& trace::is_pending(self.steps(), k)
                    &&& !priority::is_higher(self.rank(dp, other), self.rank(dp, k))
                }
                &&& priority::are_comparable::<DP::Priority>() ==> {
                    let list = trace::pending_in_turn(self.steps(), self.steps().len() as int);
                    k == list[machine::leader(self.ranks_above(dp), list, list.len() as int)]
                }
            }
    }

    proof fn lemma_leads(
        self,
        dp: DP,
        k: Key<DP>,
        range: Set<VersionOf<DP>>,
        other: Key<DP>,
    )
        requires
            priority::are_comparable::<DP::Priority>(),
            machine::comes_next(dp, self.holdings(), Next::Choose(k, range)),
            trace::is_pending(self.steps(), other),
        ensures
            ({
                let list = trace::pending_in_turn(self.steps(), self.steps().len() as int);
                k == list[machine::leader(self.ranks_above(dp), list, list.len() as int)]
            }),
    {
        let trail = self.state.entries();
        let n = trail.len() as int;
        let list = machine::pending(trail, n);
        trace::lemma_pending_in_turn(trail, n);
        trace::lemma_steps_of(trail, other);
        machine::lemma_pending(trail, n, other);
        let above = machine::stands_above(dp, trail, self.holdings().counts);
        assert forall|a: Key<DP>, b: Key<DP>| #[trigger] above(a, b) == self.ranks_above(dp)(
            a,
            b,
        ) by {
            self.lemma_stands_above(dp, a, b);
            trace::lemma_steps_of(trail, a);
            trace::lemma_steps_of(trail, b);
            assert(trace::open_versions(self.steps(), a) =~= self.state.open_versions(a));
            assert(trace::open_versions(self.steps(), b) =~= self.state.open_versions(b));
        }
        assert(above =~= self.ranks_above(dp));
    }

    proof fn lemma_chooses(self, dp: DP, k: Key<DP>, range: Set<VersionOf<DP>>)
        requires
            self.ok(),
            follows_up(dp, self.state.entries(), None),
            self.picks(dp, k, range),
            machine::comes_next(dp, self.holdings(), Next::Choose(k, range)),
        ensures
            self.chooses(dp, k, range),
    {
        let trail = self.state.entries();
        let steps = self.steps();
        lemma_has_propagated(dp, self);
        assert forall|k: Key<DP>, v: VersionOf<DP>, i: int|
            #![trigger self.decided().contains((k, v)), dp.requirements(k, v)->0[i]]
            self.decided().contains((k, v)) && 0 <= i < dp.requirements(k, v)->0.len() implies {
            let q = dp.requirements(k, v)->0[i];
            trace::open_states(steps, q.0).subset_of(term::selected_in(q.1))
        } by {
            let t = state::lemma_decision_step(self.state.trail@, k, v);
            assert(trail[t].set == term::only(v));
            assert(steps[t].decided && steps[t].key == k);
            assert(term::only(v).contains(Some(v)));
            assert(steps[t].set.contains(Some(v)));
            let q = dp.requirements(steps[t].key, v)->0[i];
        }
        assert forall|q: Key<DP>| #[trigger] trace::open_versions(steps, q)
            == self.state.open_versions(q) by {
            trace::lemma_steps_of(trail, q);
            assert(trace::open_versions(steps, q) =~= self.state.open_versions(q));
        }
        trace::lemma_steps_of(trail, k);
        assert forall|v: VersionOf<DP>| range.contains(v) implies trace::open_versions(
            steps,
            k,
        ).contains(v) by {
            assert(term::selected_in(range).contains(Some(v)));
        }
        assert forall|other: Key<DP>| #[trigger] trace::is_pending(steps, other) implies {
            &&& range == trace::open_versions(steps, k)
            &&& priority::are_ordered::<DP::Priority>() ==> {
                &&& trace::is_pending(steps, k)
                &&& !priority::is_higher(self.rank(dp, other), self.rank(dp, k))
            }
            &&& priority::are_comparable::<DP::Priority>() ==> {
                let list = trace::pending_in_turn(steps, steps.len() as int);
                k == list[machine::leader(self.ranks_above(dp), list, list.len() as int)]
            }
        } by {
            if priority::are_comparable::<DP::Priority>() {
                self.lemma_leads(dp, k, range, other);
            }
            trace::lemma_steps_of(trail, other);
            assert(self.state.is_pending(other));
            assert(!self.state.all_chosen());
            assert(trace::open_versions(steps, other) == self.state.open_versions(other));
            assert(trace::open_versions(steps, k) == self.state.open_versions(k));
        }
    }
}

/// The choice of the package and the range is the one that the solver makes, whose decisions and
/// counts the observer can tell, and whose steps it can retrace.
pub open spec fn is_first_choice<
    DP: DependencyProvider,
    O: SolverObserver<DP::P, DP::VS, DP::M>,
>(
    dp: DP,
    earlier: SolverState<DP>,
    before: Seq<Observed<Key<DP>, VersionOf<DP>>>,
    after: Seq<Observed<Key<DP>, VersionOf<DP>>>,
    k: Key<DP>,
    range: Set<VersionOf<DP>>,
) -> bool {
    exists|solver: SolverState<DP>|
        {
            &&& solver.wf(dp)
            &&& solver.same_problem(earlier)
            &&& tells::<DP, O>(dp, earlier.decided(), solver.decided(), before, after)
            &&& counts_setbacks::<DP, O>(dp, earlier, solver, before, after)
            &&& observer::always_asks::<DP::P, DP::VS, DP::M, O>() && observer::levels_fit(
                before.len() as int,
                after,
            ) ==> solver.steps() == trace::retraced(
                earlier.steps(),
                before.len() as int,
                after,
            )
            &&& #[trigger] solver.chooses(dp, k, range)
        }
}

proof fn lemma_first_choice<DP: DependencyProvider, O: SolverObserver<DP::P, DP::VS, DP::M>>(
    dp: DP,
    earlier: SolverState<DP>,
    solver: SolverState<DP>,
    before: Seq<Observed<Key<DP>, VersionOf<DP>>>,
    after: Seq<Observed<Key<DP>, VersionOf<DP>>>,
    k: Key<DP>,
    range: Set<VersionOf<DP>>,
)
    requires
        solver.wf(dp),
        solver.same_problem(earlier),
        tells::<DP, O>(dp, earlier.decided(), solver.decided(), before, after),
        counts_setbacks::<DP, O>(dp, earlier, solver, before, after),
        is_traced::<DP, O>(dp, earlier, solver, before, after),
        follows_up(dp, solver.state.entries(), None),
        solver.picks(dp, k, range),
        machine::comes_next(dp, solver.holdings(), Next::Choose(k, range)),
    ensures
        is_first_choice::<DP, O>(dp, earlier, before, after, k, range),
{
    reveal(is_traced);
    reveal(trace::leads);
    solver.lemma_chooses(dp, k, range);
}

/// Every choice of a package was one of highest priority.
#[verifier::opaque]
pub open spec fn are_first_choices<
    DP: DependencyProvider,
    O: SolverObserver<DP::P, DP::VS, DP::M>,
>(
    dp: DP,
    earlier: SolverState<DP>,
    before: Seq<Observed<Key<DP>, VersionOf<DP>>>,
    after: Seq<Observed<Key<DP>, VersionOf<DP>>>,
) -> bool {
    forall|i: int|
        before.len() <= i < after.len() && (#[trigger] after[i]) is PackageChoice
            ==> is_first_choice::<DP, O>(
            dp,
            earlier,
            before,
            after.take(i),
            after[i]->PackageChoice_0,
            after[i]->PackageChoice_1,
        )
}

/// Every choice of a package in a search from the beginning was one of highest priority.
pub open spec fn chooses_first<DP: DependencyProvider, O: SolverObserver<DP::P, DP::VS, DP::M>>(
    dp: DP,
    root: Key<DP>,
    version: VersionOf<DP>,
    before: Seq<Observed<Key<DP>, VersionOf<DP>>>,
    after: Seq<Observed<Key<DP>, VersionOf<DP>>>,
) -> bool {
    exists|solver: SolverState<DP>| #[trigger]
        solver.is_new(root, version) && are_first_choices::<DP, O>(dp, solver, before, after)
}

/// More events leave the choices what they were.
proof fn lemma_first_choices<DP: DependencyProvider, O: SolverObserver<DP::P, DP::VS, DP::M>>(
    dp: DP,
    earlier: SolverState<DP>,
    before: Seq<Observed<Key<DP>, VersionOf<DP>>>,
    after: Seq<Observed<Key<DP>, VersionOf<DP>>>,
    longer: Seq<Observed<Key<DP>, VersionOf<DP>>>,
)
    requires
        are_first_choices::<DP, O>(dp, earlier, before, after),
        after.is_prefix_of(longer),
        forall|i: int|
            after.len() <= i < longer.len() && (#[trigger] longer[i]) is PackageChoice
                ==> is_first_choice::<DP, O>(
                dp,
                earlier,
                before,
                longer.take(i),
                longer[i]->PackageChoice_0,
                longer[i]->PackageChoice_1,
            ),
    ensures
        are_first_choices::<DP, O>(dp, earlier, before, longer),
{
    reveal(are_first_choices);
    assert forall|i: int|
        before.len() <= i < longer.len() && (#[trigger] longer[i]) is PackageChoice implies
        is_first_choice::<DP, O>(
        dp,
        earlier,
        before,
        longer.take(i),
        longer[i]->PackageChoice_0,
        longer[i]->PackageChoice_1,
    ) by {
        if i < after.len() {
            assert(after[i] == longer.subrange(0, after.len() as int)[i]);
            assert(after[i] == longer[i]);
            assert(longer.take(i) =~= after.take(i)) by {
                assert forall|j: int| 0 <= j < i implies longer[j] == after[j] by {
                    assert(after[j] == longer.subrange(0, after.len() as int)[j]);
                }
            }
        }
    }
}

/// A longer log tells of no fewer facts.
/// Where the new causes rest on what was told before, all of them do.
proof fn lemma_causes_told<P: Package, VS: VersionSet, M>(
    before: Seq<Observed<P::V, VS::V>>,
    after: Seq<Observed<P::V, VS::V>>,
    longer: Seq<Observed<P::V, VS::V>>,
)
    requires
        problem::causes_are_told::<P, VS, M>(before, after),
        before.len() <= after.len(),
        after.is_prefix_of(longer),
        observer::causes_rest_on(
            after,
            longer,
            problem::told_facts::<P, VS, M>(before, after),
        ),
    ensures
        problem::causes_are_told::<P, VS, M>(before, longer),
{
    assert forall|i: int|
        before.len() <= i < longer.len() && observer::holds_tree(#[trigger] longer[i]) implies
        observer::is_told_of_tree(
        observer::cause_of(longer[i]),
        problem::told_facts::<P, VS, M>(before, longer.take(i)),
    ) by {
        let cause = observer::cause_of(longer[i]);
        if i < after.len() {
            assert(longer[i] == after[i]) by {
                assert(after[i] == longer.subrange(0, after.len() as int)[i]);
            }
            assert(longer.take(i) =~= after.take(i)) by {
                assert forall|j: int| 0 <= j < i implies longer[j] == after[j] by {
                    assert(after[j] == longer.subrange(0, after.len() as int)[j]);
                }
            }
        } else {
            let narrow = problem::told_facts::<P, VS, M>(before, after);
            let wide = problem::told_facts::<P, VS, M>(before, longer.take(i));
            assert(observer::is_told_of_tree(cause, narrow));
            assert(after =~= longer.take(i).subrange(0, after.len() as int));
            lemma_told_more::<P, VS, M>(before, after, longer.take(i));
            let tree = choose|tree: DerivationTree<P, VS, M>| #[trigger]
                tree.rests_on(narrow) && tree.is_sound() && cause == tree.told();
            lemma_tree_rests_on_more(&tree, narrow, wide);
        }
    }
}

/// Where a version was chosen last, what the provider states of it counts as told.
proof fn lemma_version_told<P: Package, VS: VersionSet, M>(
    before: Seq<Observed<P::V, VS::V>>,
    after: Seq<Observed<P::V, VS::V>>,
    k: P::V,
    v: VS::V,
)
    requires
        before.len() < after.len(),
        after.last() is VersionChoice,
        after.last()->VersionChoice_0 == k,
        after.last()->VersionChoice_1 == v,
    ensures
        forall|e: External<P, VS, M>|
            problem::is_of_version(e, k, v) ==> #[trigger] problem::told_facts::<P, VS, M>(
                before,
                after,
            )(e),
{
    assert(after[after.len() - 1] is VersionChoice);
}

proof fn lemma_told_more<P: Package, VS: VersionSet, M>(
    before: Seq<Observed<P::V, VS::V>>,
    after: Seq<Observed<P::V, VS::V>>,
    longer: Seq<Observed<P::V, VS::V>>,
)
    requires
        after.is_prefix_of(longer),
    ensures
        forall|e: External<P, VS, M>| #[trigger]
            problem::told_facts::<P, VS, M>(before, after)(e) ==> problem::told_facts::<P, VS, M>(
                before,
                longer,
            )(e),
{
    assert forall|e: External<P, VS, M>| #[trigger]
        problem::told_facts::<P, VS, M>(before, after)(e) implies problem::told_facts::<P, VS, M>(
        before,
        longer,
    )(e) by {
        if let External::NoVersions(p, set) = e {
            let i = choose|i: int|
                before.len() <= i < after.len() && #[trigger] after[i] == Observed::NoVersion(
                    p@,
                    set@,
                );
            assert(after[i] == longer.subrange(0, after.len() as int)[i]);
            assert(longer[i] == Observed::NoVersion(p@, set@));
        } else if !(e is NotRoot) && !(e is ExcludedSolution) {
            let i = choose|i: int|
                before.len() <= i < after.len() && (#[trigger] after[i]) is VersionChoice
                    && problem::is_of_version(
                    e,
                    after[i]->VersionChoice_0,
                    after[i]->VersionChoice_1,
                );
            assert(after[i] == longer.subrange(0, after.len() as int)[i]);
            assert(longer[i] == after[i]);
        }
    }
}

proof fn lemma_tree_rests_on_more<P: Package, VS: VersionSet, M>(
    tree: &report::DerivationTree<P, VS, M>,
    fact: spec_fn(External<P, VS, M>) -> bool,
    more: spec_fn(External<P, VS, M>) -> bool,
)
    requires
        tree.rests_on(fact),
        forall|e: External<P, VS, M>| #[trigger] fact(e) ==> more(e),
    ensures
        tree.rests_on(more),
    decreases tree,
{
    if let report::DerivationTree::Derived(derived) = tree {
        lemma_tree_rests_on_more(&*derived.cause1, fact, more);
        lemma_tree_rests_on_more(&*derived.cause2, fact, more);
    }
}

proof fn lemma_rests_on_more<P: Package, VS: VersionSet, M>(
    state: State<P, VS, M>,
    fact: spec_fn(External<P, VS, M>) -> bool,
    more: spec_fn(External<P, VS, M>) -> bool,
)
    requires
        state.rests_on(fact),
        forall|e: External<P, VS, M>| #[trigger] fact(e) ==> more(e),
    ensures
        state.rests_on(more),
{
    assert forall|i: int| 0 <= i < state.store@.len() implies (
    #[trigger] state.store@[i]).tree.rests_on(more) by {
        lemma_tree_rests_on_more(&*state.store@[i].tree, fact, more);
    }
}

/// Where no range without a version has been met, there is nothing to tell.
proof fn lemma_told_facts<P: Package, VS: VersionSet, M>(
    state: State<P, VS, M>,
    before: Seq<Observed<P::V, VS::V>>,
    after: Seq<Observed<P::V, VS::V>>,
)
    requires
        state.rests_on(|e: External<P, VS, M>| e is NotRoot || e is ExcludedSolution),
    ensures
        state.rests_on(problem::told_facts(before, after)),
{
    lemma_rests_on_more(
        state,
        |e: External<P, VS, M>| e is NotRoot || e is ExcludedSolution,
        problem::told_facts(before, after),
    );
}

/// The exclusion that makes the demand hold wherever the root package is at its version.
pub open spec fn forced_clause<K, V>(
    root: K,
    version: V,
    demand: (K, Set<Option<V>>),
) -> Clause<K, V> {
    if demand.1 == Set::<Option<V>>::empty() {
        seq![(root, term::only(version))]
    } else {
        seq![(root, term::only(version)), (demand.0, demand.1.complement())]
    }
}

/// The exclusions that make the demands hold wherever the root package is at its version.
pub open spec fn forced_clauses<K, V>(root: K, version: V, demands: Clause<K, V>) -> Seq<
    Clause<K, V>,
>
    decreases demands.len(),
{
    if demands.len() == 0 {
        Seq::empty()
    } else if demands.last().1 == Set::<Option<V>>::full() {
        forced_clauses(root, version, demands.drop_last())
    } else {
        forced_clauses(root, version, demands.drop_last()).push(
            forced_clause(root, version, demands.last()),
        )
    }
}

/// A violated exclusion stands for a demand that does not hold, and is about its package.
pub proof fn lemma_forced_violated<K, V>(
    root: K,
    version: V,
    demands: Clause<K, V>,
    s: Map<K, V>,
    j: int,
) -> (i: int)
    requires
        0 <= j < forced_clauses(root, version, demands).len(),
        search::violates(forced_clauses(root, version, demands)[j], s),
    ensures
        0 <= i < demands.len(),
        !demands[i].1.contains(s.get(demands[i].0)),
        demands[i].1 != Set::<Option<V>>::empty() ==> search::mentions(
            forced_clauses(root, version, demands)[j],
            demands[i].0,
        ),
    decreases demands.len(),
{
    let all = forced_clauses(root, version, demands);
    let shorter = demands.drop_last();
    let before = forced_clauses(root, version, shorter);
    let n = demands.len() - 1;
    if j < before.len() {
        assert(all[j] == before[j]);
        let i = lemma_forced_violated(root, version, shorter, s, j);
        assert(demands[i] == shorter[i]);
        i
    } else {
        let clause = forced_clause(root, version, demands.last());
        assert(all[j] == clause);
        if demands[n].1 != Set::<Option<V>>::empty() {
            assert(clause[1].1.contains(s.get(clause[1].0)));
            assert(clause[1].0 == demands[n].0);
        }
        n
    }
}

/// Where the root package is at its version, avoiding the exclusions is meeting the demands.
pub proof fn lemma_forced<K, V>(root: K, version: V, demands: Clause<K, V>, s: Map<K, V>)
    requires
        s.get(root) == Some(version),
    ensures
        problem::avoids(forced_clauses(root, version, demands), s) <==> search::violates(
            demands,
            s,
        ),
    decreases demands.len(),
{
    let all = forced_clauses(root, version, demands);
    if demands.len() > 0 {
        let shorter = demands.drop_last();
        let before = forced_clauses(root, version, shorter);
        let n = demands.len() - 1;
        let last = demands[n];
        lemma_forced(root, version, shorter, s);
        let clause = forced_clause(root, version, last);
        assert(term::only(version).contains(Some(version)));
        assert(last.1 != Set::<Option<V>>::full() ==> (search::violates(clause, s)
            <==> !last.1.contains(s.get(last.0)))) by {
            assert(clause[0].1.contains(s.get(clause[0].0)));
            if last.1 != Set::<Option<V>>::empty() {
                assert(clause[1] == (last.0, last.1.complement()));
                assert(clause.len() == 2);
            }
        }
        if search::violates(demands, s) {
            assert(search::violates(shorter, s)) by {
                assert forall|i: int| 0 <= i < shorter.len() implies (
                #[trigger] shorter[i]).1.contains(s.get(shorter[i].0)) by {
                    assert(demands[i] == shorter[i]);
                }
            }
            assert forall|j: int| 0 <= j < all.len() implies !search::violates(
                #[trigger] all[j],
                s,
            ) by {
                if j < before.len() {
                    assert(all[j] == before[j]);
                }
            }
        }
        if problem::avoids(all, s) {
            assert(problem::avoids(before, s)) by {
                assert forall|j: int| 0 <= j < before.len() implies !search::violates(
                    #[trigger] before[j],
                    s,
                ) by {
                    assert(all[j] == before[j]);
                }
            }
            assert(last.1.contains(s.get(last.0))) by {
                if last.1 != Set::<Option<V>>::full() {
                    assert(all[before.len() as int] == clause);
                }
            }
            assert forall|i: int| 0 <= i < demands.len() implies (
            #[trigger] demands[i]).1.contains(s.get(demands[i].0)) by {
                if i < n {
                    assert(demands[i] == shorter[i]);
                }
            }
        }
    }
}

impl<DP: DependencyProvider> SolverState<DP> {
    /// Rule out everything in which some of the terms does not hold.
    pub fn force_terms(&mut self, required_terms: &Vec<(DP::P, Term<DP::VS>)>)
        requires
            old(self).ok(),
        ensures
            final(self).ok(),
            final(self).root() == old(self).root(),
            final(self).version() == old(self).version(),
            forall|dp: DP| old(self).agrees(dp) ==> #[trigger] final(self).agrees(dp),
            final(self).decided() == old(self).decided(),
            final(self).steps() == old(self).steps(),
            forall|dp: DP| old(self).is_settled(dp) ==> #[trigger] final(self).is_settled(dp),
            final(self).holdings() == machine::ruling_out_all(
                old(self).holdings(),
                forced_clauses(
                    old(self).root(),
                    old(self).version(),
                    term::parts(required_terms@),
                ),
            ),
            final(self).exclusions() == old(self).exclusions() + forced_clauses(
                old(self).root(),
                old(self).version(),
                term::parts(required_terms@),
            ),
    {
        let ghost start = *self;
        let ghost demands = term::parts(required_terms@);
        let any: Term<DP::VS> = Term::any();
        let empty: Term<DP::VS> = Term::empty();
        let mut i: usize = 0;
        proof {
            assert(demands.take(0) =~= Seq::empty());
            assert(start.exclusions() + forced_clauses(
                start.root(),
                start.version(),
                demands.take(0),
            ) =~= start.exclusions());
        }
        while i < required_terms.len()
            invariant
                self.ok(),
                self.root() == start.root(),
                self.version() == start.version(),
                forall|dp: DP| start.agrees(dp) ==> #[trigger] self.agrees(dp),
                self.decided() == start.decided(),
                self.steps() == start.steps(),
                forall|dp: DP| start.is_settled(dp) ==> #[trigger] self.is_settled(dp),
                demands == term::parts(required_terms@),
                any@ == Set::<Option<VersionOf<DP>>>::full(),
                empty@ == Set::<Option<VersionOf<DP>>>::empty(),
                self.holdings() == machine::ruling_out_all(
                    start.holdings(),
                    forced_clauses(start.root(), start.version(), demands.take(i as int)),
                ),
                i <= required_terms@.len(),
                self.exclusions() == start.exclusions() + forced_clauses(
                    start.root(),
                    start.version(),
                    demands.take(i as int),
                ),
            decreases required_terms@.len() - i,
        {
            let ghost before = *self;
            let ghost prefix = demands.take(i as int);
            let required = &required_terms[i].1;
            proof {
                assert(demands.take(i + 1).drop_last() =~= prefix);
                assert(demands.take(i + 1).last() == demands[i as int]);
            }
            if !required.same(&any) {
                let mut terms: Vec<(DP::P, Term<DP::VS>)> = Vec::new();
                terms.push(
                    (
                        self.root.duplicate(),
                        Term::Positive(DP::VS::singleton(self.version.duplicate())),
                    ),
                );
                if !required.same(&empty) {
                    terms.push((required_terms[i].0.duplicate(), required.negate()));
                }
                let ghost clause = term::parts(terms@);
                proof {
                    assert(clause =~= forced_clause(
                        start.root(),
                        start.version(),
                        demands[i as int],
                    ));
                    lemma_owner(start.root(), start.version(), clause);
                }
                self.add_solution_exclusion(terms);
                proof {
                    let earlier = forced_clauses(start.root(), start.version(), prefix);
                    assert(earlier.push(clause).drop_last() =~= earlier);
                    assert(self.exclusions() =~= start.exclusions() + forced_clauses(
                        start.root(),
                        start.version(),
                        demands.take(i + 1),
                    ));
                }
            }
            i += 1;
        }
        assert(demands.take(i as int) =~= demands);
    }
}

} // verus!
