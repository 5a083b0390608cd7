//! The course of a run, step by step.

use vstd::prelude::*;

use crate::machine;
use crate::machine::{Core, Machine, Next, Outcome};
use crate::observer;
use crate::observer::Observed;
use crate::problem;
use crate::problem::{Key, VersionOf};
use crate::provider::{Dependencies, DependencyProvider, IncompatibilityConstraints};
use crate::search;
use crate::state;
use crate::term;
use crate::tracker;
use crate::version_set::VersionSet;

verus! {

/// A run on the provider: the problem, what the solver holds at first, and how many events were told
/// before.
#[verifier::reject_recursive_types(DP)]
pub struct Course<DP: DependencyProvider> {
    pub dp: DP,
    pub root: Key<DP>,
    pub version: VersionOf<DP>,
    pub start: Core<Key<DP>, VersionOf<DP>>,
    pub from: int,
}

impl<DP: DependencyProvider> Course<DP> {
    /// The run comes to stand there, where the provider is deterministic.
    spec fn comes_to(self, m: Machine<Key<DP>, VersionOf<DP>>) -> bool {
        machine::comes_to(self.dp, self.root, self.version, self.start, m)
    }

    /// The run comes to hold this after these events, and goes on.
    pub closed spec fn is_at(
        self,
        held: Core<Key<DP>, VersionOf<DP>>,
        log: Seq<Observed<Key<DP>, VersionOf<DP>>>,
    ) -> bool {
        self.comes_to(
            Machine { core: held, told: machine::choices_told(self.from, log), end: None },
        )
    }

    /// The run comes to hold this after these events, and is to choose.
    pub closed spec fn is_choosing(
        self,
        held: Core<Key<DP>, VersionOf<DP>>,
        log: Seq<Observed<Key<DP>, VersionOf<DP>>>,
    ) -> bool {
        self.comes_to(
            machine::choice_step(self.dp, held, machine::choices_told(self.from, log)),
        )
    }

    /// The run comes to hold this after these events, and turns to the version.
    pub closed spec fn is_turning_to(
        self,
        held: Core<Key<DP>, VersionOf<DP>>,
        log: Seq<Observed<Key<DP>, VersionOf<DP>>>,
        k: Key<DP>,
        v: VersionOf<DP>,
    ) -> bool {
        self.comes_to(
            machine::version_step(self.dp, held, machine::choices_told(self.from, log), k, v),
        )
    }

    /// The run ends with the outcome, where the provider is deterministic, with this held and these
    /// events told.
    pub open spec fn has_ended(
        self,
        held: Core<Key<DP>, VersionOf<DP>>,
        log: Seq<Observed<Key<DP>, VersionOf<DP>>>,
        outcome: Outcome<Key<DP>, VersionOf<DP>>,
    ) -> bool {
        machine::is_deterministic(self.dp) ==> machine::runs_to(
            self.dp,
            self.root,
            self.version,
            self.start,
            Machine {
                core: held,
                told: machine::choices_told(self.from, log),
                end: Some(outcome),
            },
        )
    }

    proof fn lemma_ends(
        self,
        held: Core<Key<DP>, VersionOf<DP>>,
        log: Seq<Observed<Key<DP>, VersionOf<DP>>>,
        outcome: Outcome<Key<DP>, VersionOf<DP>>,
    )
        requires
            self.comes_to(
                Machine {
                    core: held,
                    told: machine::choices_told(self.from, log),
                    end: Some(outcome),
                },
            ),
        ensures
            self.has_ended(held, log, outcome),
    {
        reveal(machine::comes_to);
    }

    /// The run begins.
    pub proof fn begins(self, log: Seq<Observed<Key<DP>, VersionOf<DP>>>)
        requires
            log.len() == self.from,
        ensures
            self.is_at(self.start, log),
    {
        machine::lemma_begins(
            self.dp,
            self.root,
            self.version,
            self.start,
            machine::choices_told(self.from, log),
        );
    }

    /// The provider cancels the run.
    pub proof fn is_cancelled(
        self,
        held: Core<Key<DP>, VersionOf<DP>>,
        log: Seq<Observed<Key<DP>, VersionOf<DP>>>,
        source: DP::Err,
    )
        requires
            self.is_at(held, log),
            call_ensures(DP::should_cancel, (&self.dp,), Err(source)),
        ensures
            self.has_ended(held, log, Outcome::Cancelled),
    {
        machine::lemma_goes_cancelled(
            self.dp,
            self.root,
            self.version,
            self.start,
            held,
            machine::choices_told(self.from, log),
            source,
        );
        self.lemma_ends(held, log, Outcome::Cancelled);
    }

    /// The propagation proves that there is no solution.
    pub proof fn has_failed(
        self,
        held: Core<Key<DP>, VersionOf<DP>>,
        log: Seq<Observed<Key<DP>, VersionOf<DP>>>,
        left: Core<Key<DP>, VersionOf<DP>>,
        longer: Seq<Observed<Key<DP>, VersionOf<DP>>>,
    )
        requires
            self.is_at(held, log),
            call_ensures(DP::should_cancel, (&self.dp,), Ok(())),
            0 <= self.from <= log.len(),
            log.is_prefix_of(longer),
            forall|i: int| log.len() <= i < longer.len() ==> observer::holds_tree(#[trigger] longer[i]),
            state::ends_scan(
                self.root,
                self.version,
                machine::scan_of(held.clauses, held.trail, held.next),
                left.clauses,
                left.trail,
                None,
            ),
            left == (Core { clauses: left.clauses, trail: left.trail, ..held }),
        ensures
            self.has_ended(left, longer, Outcome::NoSolution),
    {
        reveal(state::ends_scan);
        let begin = machine::scan_of(held.clauses, held.trail, held.next);
        let end = choose|end: machine::Scan<Key<DP>, VersionOf<DP>>|
            {
                &&& #[trigger] machine::scans_to(self.root, self.version, begin, end)
                &&& end.clauses == left.clauses
                &&& end.trail == left.trail
                &&& end.failed
            };
        machine::lemma_choices_told(self.from, log, longer);
        machine::lemma_goes_failed(
            self.dp,
            self.root,
            self.version,
            self.start,
            held,
            machine::choices_told(self.from, log),
            end,
        );
        self.lemma_ends(left, longer, Outcome::NoSolution);
    }

    /// The propagation comes to its end.
    pub proof fn has_propagated(
        self,
        held: Core<Key<DP>, VersionOf<DP>>,
        log: Seq<Observed<Key<DP>, VersionOf<DP>>>,
        left: Core<Key<DP>, VersionOf<DP>>,
        longer: Seq<Observed<Key<DP>, VersionOf<DP>>>,
        causes: Seq<(Key<DP>, int)>,
    )
        requires
            self.is_at(held, log),
            call_ensures(DP::should_cancel, (&self.dp,), Ok(())),
            0 <= self.from <= log.len(),
            log.is_prefix_of(longer),
            forall|i: int| log.len() <= i < longer.len() ==> observer::holds_tree(#[trigger] longer[i]),
            state::ends_scan(
                self.root,
                self.version,
                machine::scan_of(held.clauses, held.trail, held.next),
                left.clauses,
                left.trail,
                Some(causes),
            ),
            left.added == held.added,
            left.next == held.next,
            left.backtracked == (held.backtracked || causes.len() > 0),
            forall|k: Key<DP>| #[trigger]
                (left.counts)(k) == machine::after_causes(
                    (held.counts)(k),
                    left.clauses,
                    causes,
                    k,
                ),
        ensures
            self.is_choosing(left, longer),
    {
        reveal(state::ends_scan);
        let begin = machine::scan_of(held.clauses, held.trail, held.next);
        let end = choose|end: machine::Scan<Key<DP>, VersionOf<DP>>|
            {
                &&& #[trigger] machine::scans_to(self.root, self.version, begin, end)
                &&& end.clauses == left.clauses
                &&& end.trail == left.trail
                &&& !end.failed
                &&& end.causes == causes
            };
        machine::lemma_choices_told(self.from, log, longer);
        machine::lemma_goes_propagated(
            self.dp,
            self.root,
            self.version,
            self.start,
            held,
            machine::choices_told(self.from, log),
            end,
        );
        let after = machine::after_propagation(held, end);
        assert(after.counts =~= left.counts);
        assert(after == left);
    }

    /// There is nothing to choose: the run has found a solution.
    pub proof fn has_solved(
        self,
        held: Core<Key<DP>, VersionOf<DP>>,
        log: Seq<Observed<Key<DP>, VersionOf<DP>>>,
    )
        requires
            self.is_choosing(held, log),
            machine::comes_next(self.dp, held, Next::Nothing),
        ensures
            self.has_ended(held, log, Outcome::Solved),
    {
        self.lemma_same(
            machine::choice_step(self.dp, held, machine::choices_told(self.from, log)),
            Machine {
                core: held,
                told: machine::choices_told(self.from, log),
                end: Some(Outcome::Solved),
            },
        );
        self.lemma_ends(held, log, Outcome::Solved);
    }

    proof fn lemma_same(
        self,
        m: Machine<Key<DP>, VersionOf<DP>>,
        same: Machine<Key<DP>, VersionOf<DP>>,
    )
        requires
            self.comes_to(m),
            machine::is_deterministic(self.dp) ==> m == same,
        ensures
            self.comes_to(same),
    {
        reveal(machine::comes_to);
    }

    /// A package is to be propagated again.
    pub proof fn is_to_propagate(
        self,
        held: Core<Key<DP>, VersionOf<DP>>,
        log: Seq<Observed<Key<DP>, VersionOf<DP>>>,
        k: Key<DP>,
        left: Core<Key<DP>, VersionOf<DP>>,
    )
        requires
            self.is_choosing(held, log),
            machine::comes_next(self.dp, held, Next::Propagate(k)),
            left == (Core { next: k, ..held }),
        ensures
            self.is_at(left, log),
    {
        self.lemma_same(
            machine::choice_step(self.dp, held, machine::choices_told(self.from, log)),
            Machine { core: left, told: machine::choices_told(self.from, log), end: None },
        );
    }

    /// The provider fails to choose a version.
    pub proof fn fails_choice(
        self,
        held: Core<Key<DP>, VersionOf<DP>>,
        log: Seq<Observed<Key<DP>, VersionOf<DP>>>,
        p: DP::P,
        set: DP::VS,
        source: DP::Err,
        left: Core<Key<DP>, VersionOf<DP>>,
        longer: Seq<Observed<Key<DP>, VersionOf<DP>>>,
    )
        requires
            self.is_choosing(held, log),
            0 <= self.from <= log.len(),
            machine::comes_next(self.dp, held, Next::Choose(p@, set@)),
            call_ensures(DP::choose_version, (&self.dp, &p, &set), Err(source)),
            left == (Core { next: p@, ..held }),
            longer == log.push(Observed::PackageChoice(p@, set@)),
        ensures
            self.has_ended(left, longer, Outcome::FailedChoice(p@)),
    {
        let told = machine::choices_told(self.from, log);
        machine::lemma_choice_told(self.from, log, Observed::PackageChoice(p@, set@));
        if machine::is_deterministic(self.dp) {
            machine::lemma_fails_choice(self.dp, held, told, p, set, source);
        }
        self.lemma_same(
            machine::choice_step(self.dp, held, told),
            Machine {
                core: left,
                told: machine::choices_told(self.from, longer),
                end: Some(Outcome::FailedChoice(p@)),
            },
        );
        self.lemma_ends(left, longer, Outcome::FailedChoice(p@));
    }

    /// The provider has no version to choose.
    pub proof fn finds_no_version(
        self,
        held: Core<Key<DP>, VersionOf<DP>>,
        log: Seq<Observed<Key<DP>, VersionOf<DP>>>,
        p: DP::P,
        set: DP::VS,
        left: Core<Key<DP>, VersionOf<DP>>,
        longer: Seq<Observed<Key<DP>, VersionOf<DP>>>,
    )
        requires
            self.is_choosing(held, log),
            0 <= self.from <= log.len(),
            machine::comes_next(self.dp, held, Next::Choose(p@, set@)),
            call_ensures(DP::choose_version, (&self.dp, &p, &set), Ok(None)),
            left == (Core {
                next: p@,
                clauses: held.clauses.push(seq![(p@, term::selected_in(set@))]),
                ..held
            }),
            longer == log.push(Observed::PackageChoice(p@, set@)).push(
                Observed::NoVersion(p@, set@),
            ),
        ensures
            self.is_at(left, longer),
    {
        let told = machine::choices_told(self.from, log);
        let asked = log.push(Observed::PackageChoice(p@, set@));
        machine::lemma_choice_told(self.from, log, Observed::PackageChoice(p@, set@));
        machine::lemma_choice_told(self.from, asked, Observed::NoVersion(p@, set@));
        if machine::is_deterministic(self.dp) {
            machine::lemma_answers(self.dp, p, set, None);
        }
        self.lemma_same(
            machine::choice_step(self.dp, held, told),
            Machine { core: left, told: machine::choices_told(self.from, longer), end: None },
        );
    }

    /// The provider chooses a version.
    pub proof fn finds_version(
        self,
        held: Core<Key<DP>, VersionOf<DP>>,
        log: Seq<Observed<Key<DP>, VersionOf<DP>>>,
        p: DP::P,
        set: DP::VS,
        v: VersionOf<DP>,
        left: Core<Key<DP>, VersionOf<DP>>,
        longer: Seq<Observed<Key<DP>, VersionOf<DP>>>,
    )
        requires
            self.is_choosing(held, log),
            0 <= self.from <= log.len(),
            machine::comes_next(self.dp, held, Next::Choose(p@, set@)),
            call_ensures(DP::choose_version, (&self.dp, &p, &set), Ok(Some(v))),
            left == (Core { next: p@, ..held }),
            longer == log.push(Observed::PackageChoice(p@, set@)).push(
                Observed::VersionChoice(p@, v, set@),
            ),
        ensures
            self.is_turning_to(left, longer, p@, v),
    {
        let told = machine::choices_told(self.from, log);
        let asked = log.push(Observed::PackageChoice(p@, set@));
        machine::lemma_choice_told(self.from, log, Observed::PackageChoice(p@, set@));
        machine::lemma_choice_told(self.from, asked, Observed::VersionChoice(p@, v, set@));
        if machine::is_deterministic(self.dp) {
            machine::lemma_answers(self.dp, p, set, Some(v));
        }
        self.lemma_same(
            machine::choice_step(self.dp, held, told),
            machine::version_step(
                self.dp,
                left,
                machine::choices_told(self.from, longer),
                p@,
                v,
            ),
        );
    }

    /// The version is decided on, since all that the provider states of it is known.
    pub proof fn decides_known(
        self,
        held: Core<Key<DP>, VersionOf<DP>>,
        log: Seq<Observed<Key<DP>, VersionOf<DP>>>,
        k: Key<DP>,
        v: VersionOf<DP>,
        left: Core<Key<DP>, VersionOf<DP>>,
        longer: Seq<Observed<Key<DP>, VersionOf<DP>>>,
    )
        requires
            self.is_turning_to(held, log, k, v),
            0 <= self.from <= log.len(),
            held.added.contains((k, v)),
            left == (Core { trail: held.trail.push(machine::decision(held.trail, k, v)), ..held }),
            longer == log.push(
                Observed::Decision(k, v, observer::level_told(search::level(held.trail) + 1)),
            ),
        ensures
            self.is_at(left, longer),
    {
        let told = machine::choices_told(self.from, log);
        machine::lemma_choice_told(
            self.from,
            log,
            Observed::Decision(k, v, observer::level_told(search::level(held.trail) + 1)),
        );
        self.lemma_same(
            machine::version_step(self.dp, held, told, k, v),
            Machine { core: left, told: machine::choices_told(self.from, longer), end: None },
        );
    }

    /// The provider fails to tell what the version depends on.
    pub proof fn fails_dependencies(
        self,
        held: Core<Key<DP>, VersionOf<DP>>,
        log: Seq<Observed<Key<DP>, VersionOf<DP>>>,
        p: DP::P,
        v: VersionOf<DP>,
        source: DP::Err,
    )
        requires
            self.is_turning_to(held, log, p@, v),
            !held.added.contains((p@, v)),
            call_ensures(DP::get_dependencies, (&self.dp, &p, &v), Err(source)),
        ensures
            self.has_ended(held, log, Outcome::FailedRetrieval(p@, v)),
    {
        let told = machine::choices_told(self.from, log);
        assert(machine::fails_dependencies(self.dp, p@, v));
        self.lemma_same(
            machine::version_step(self.dp, held, told, p@, v),
            Machine { core: held, told, end: Some(Outcome::FailedRetrieval(p@, v)) },
        );
        self.lemma_ends(held, log, Outcome::FailedRetrieval(p@, v));
    }

    /// The version cannot be used.
    pub proof fn finds_unavailable(
        self,
        held: Core<Key<DP>, VersionOf<DP>>,
        log: Seq<Observed<Key<DP>, VersionOf<DP>>>,
        p: DP::P,
        v: VersionOf<DP>,
        given: Dependencies<DP::P, DP::VS, DP::M>,
        left: Core<Key<DP>, VersionOf<DP>>,
    )
        requires
            self.is_turning_to(held, log, p@, v),
            !held.added.contains((p@, v)),
            call_ensures(DP::get_dependencies, (&self.dp, &p, &v), Ok(given)),
            self.dp.requirements(p@, v) is None,
            left == (Core {
                clauses: held.clauses.push(machine::tidied(problem::owner_clause(p@, v))),
                added: held.added.push((p@, v)),
                ..held
            }),
        ensures
            self.is_at(left, log),
    {
        let told = machine::choices_told(self.from, log);
        if machine::is_deterministic(self.dp) {
            machine::lemma_tells_dependencies(self.dp, p, v, given);
        }
        self.lemma_same(
            machine::version_step(self.dp, held, told, p@, v),
            Machine { core: left, told, end: None },
        );
    }

    /// The provider fails to tell what the version is incompatible with.
    pub proof fn fails_incompatibilities(
        self,
        held: Core<Key<DP>, VersionOf<DP>>,
        log: Seq<Observed<Key<DP>, VersionOf<DP>>>,
        p: DP::P,
        v: VersionOf<DP>,
        given: Dependencies<DP::P, DP::VS, DP::M>,
        source: DP::Err,
    )
        requires
            self.is_turning_to(held, log, p@, v),
            !held.added.contains((p@, v)),
            call_ensures(DP::get_dependencies, (&self.dp, &p, &v), Ok(given)),
            self.dp.requirements(p@, v) is Some,
            call_ensures(DP::get_incompatibilities, (&self.dp, &p, &v), Err(source)),
        ensures
            self.has_ended(held, log, Outcome::FailedRetrieval(p@, v)),
    {
        let told = machine::choices_told(self.from, log);
        assert(machine::fails_incompatibilities(self.dp, p@, v));
        if machine::is_deterministic(self.dp) {
            machine::lemma_tells_dependencies(self.dp, p, v, given);
        }
        self.lemma_same(
            machine::version_step(self.dp, held, told, p@, v),
            Machine { core: held, told, end: Some(Outcome::FailedRetrieval(p@, v)) },
        );
        self.lemma_ends(held, log, Outcome::FailedRetrieval(p@, v));
    }

    /// What the provider states of the version speaks against it.
    pub proof fn turns_down(
        self,
        held: Core<Key<DP>, VersionOf<DP>>,
        log: Seq<Observed<Key<DP>, VersionOf<DP>>>,
        p: DP::P,
        v: VersionOf<DP>,
        given: Dependencies<DP::P, DP::VS, DP::M>,
        stated: IncompatibilityConstraints<DP::P, DP::VS, DP::M>,
        c: int,
        left: Core<Key<DP>, VersionOf<DP>>,
    )
        requires
            self.is_turning_to(held, log, p@, v),
            !held.added.contains((p@, v)),
            call_ensures(DP::get_dependencies, (&self.dp, &p, &v), Ok(given)),
            self.dp.requirements(p@, v) is Some,
            call_ensures(DP::get_incompatibilities, (&self.dp, &p, &v), Ok(stated)),
            held.backtracked,
            ({
                let more = machine::holding(self.dp, held, p@, v);
                &&& machine::objection(
                    more.clauses,
                    more.trail,
                    held.clauses.len() as int,
                    p@,
                    v,
                ) == Some(c)
                &&& left == (Core { counts: left.counts, ..more })
                &&& forall|k: Key<DP>| #[trigger]
                    (left.counts)(k) == tracker::after_conflict(
                        (held.counts)(k),
                        k == p@,
                        search::mentions(more.clauses[c], k),
                        false,
                    )
            }),
        ensures
            self.is_at(left, log),
    {
        let told = machine::choices_told(self.from, log);
        let after = machine::version_step(self.dp, held, told, p@, v);
        if machine::is_deterministic(self.dp) {
            machine::lemma_tells_dependencies(self.dp, p, v, given);
            machine::lemma_tells_incompatibilities(self.dp, p, v, stated);
            assert(after.core.counts =~= left.counts);
        }
        self.lemma_same(after, Machine { core: left, told, end: None });
    }

    /// The version is decided on, with all that the provider states of it.
    pub proof fn decides(
        self,
        held: Core<Key<DP>, VersionOf<DP>>,
        log: Seq<Observed<Key<DP>, VersionOf<DP>>>,
        p: DP::P,
        v: VersionOf<DP>,
        given: Dependencies<DP::P, DP::VS, DP::M>,
        stated: IncompatibilityConstraints<DP::P, DP::VS, DP::M>,
        left: Core<Key<DP>, VersionOf<DP>>,
        longer: Seq<Observed<Key<DP>, VersionOf<DP>>>,
    )
        requires
            self.is_turning_to(held, log, p@, v),
            0 <= self.from <= log.len(),
            !held.added.contains((p@, v)),
            call_ensures(DP::get_dependencies, (&self.dp, &p, &v), Ok(given)),
            self.dp.requirements(p@, v) is Some,
            call_ensures(DP::get_incompatibilities, (&self.dp, &p, &v), Ok(stated)),
            ({
                let more = machine::holding(self.dp, held, p@, v);
                let against = machine::objection(
                    more.clauses,
                    more.trail,
                    held.clauses.len() as int,
                    p@,
                    v,
                );
                &&& !(held.backtracked && against is Some)
                &&& left == (Core {
                    trail: more.trail.push(machine::decision(more.trail, p@, v)),
                    ..more
                })
            }),
            longer == log.push(
                Observed::Decision(p@, v, observer::level_told(search::level(held.trail) + 1)),
            ),
        ensures
            self.is_at(left, longer),
    {
        let told = machine::choices_told(self.from, log);
        machine::lemma_choice_told(
            self.from,
            log,
            Observed::Decision(p@, v, observer::level_told(search::level(held.trail) + 1)),
        );
        if machine::is_deterministic(self.dp) {
            machine::lemma_tells_dependencies(self.dp, p, v, given);
            machine::lemma_tells_incompatibilities(self.dp, p, v, stated);
        }
        self.lemma_same(
            machine::version_step(self.dp, held, told, p@, v),
            Machine { core: left, told: machine::choices_told(self.from, longer), end: None },
        );
    }
}

} // verus!
