//! The enumeration of maximal solutions as a function of its inputs, where the provider's answers
//! depend on their arguments alone.

use vstd::prelude::*;

use crate::course::Course;
use crate::machine;
use crate::machine::{Core, Machine, Outcome};
use crate::maximal::Goal;
use crate::observer;
use crate::observer::{MaximalityProbeResult, Observed};
use crate::ordering::Precedence;
use crate::problem::{Key, VersionOf};
use crate::provider::DependencyProvider;
use crate::run;
use crate::search::Clause;
use crate::selected;

verus! {

/// The states that the goal leaves the projected packages among the first ones of the list.
pub open spec fn goal_clause<K, V>(
    goal: Goal<K>,
    o: Precedence<V>,
    projection: Seq<K>,
    list: Seq<(K, V)>,
    n: int,
) -> Clause<K, V>
    decreases n,
{
    if n <= 0 {
        Seq::empty()
    } else {
        let before = goal_clause(goal, o, projection, list, n - 1);
        let (k, v) = list[n - 1];
        if projection.contains(k) {
            before.push((k, goal.allows(o, k, v)))
        } else {
            before
        }
    }
}

/// The first projected package version, from `i` on, at which the relations have a flaw.
pub open spec fn first_flaw<K, V>(
    o: Precedence<V>,
    projection: Seq<K>,
    list: Seq<(K, V)>,
    i: int,
) -> Option<(K, V)>
    decreases list.len() - i,
{
    if i >= list.len() {
        None
    } else if projection.contains(list[i].0) && o.flaw(list[i].1) is Some {
        Some(list[i])
    } else {
        first_flaw(o, projection, list, i + 1)
    }
}

/// What the search for a better solution finds.
pub enum Found<K, V> {
    /// A better solution, as it is listed.
    Better(Seq<(K, V)>),
    /// That there is none.
    Best,
    /// It fails.
    Failed(Outcome<K, V>),
}

/// What is told of the search for an upgrade of the package.
pub open spec fn told_probe<K, V>(
    k: K,
    told: Seq<Observed<K, V>>,
    result: MaximalityProbeResult,
) -> Seq<Observed<K, V>> {
    seq![Observed::MaximalityProbeStarted(k)] + told + seq![
        Observed::MaximalityProbeFinished(k, result),
    ]
}

/// Where a climb stands: at the solution, with these events told, and how it has ended.
#[verifier::reject_recursive_types(K)]
#[verifier::reject_recursive_types(V)]
pub struct Climb<K, V> {
    pub list: Seq<(K, V)>,
    pub told: Seq<Observed<K, V>>,
    pub end: Option<Outcome<K, V>>,
}

/// Where an enumeration stands: what the solver holds, the solutions that were found, the number of
/// the last run, what was told, and how it has ended.
#[verifier::reject_recursive_types(K)]
#[verifier::reject_recursive_types(V)]
pub struct Search<K, V> {
    pub core: Core<K, V>,
    pub found: Seq<Seq<(K, V)>>,
    pub run: u64,
    pub told: Seq<Observed<K, V>>,
    pub end: Option<Outcome<K, V>>,
}

/// What is enumerated: the solutions of a problem that meet the demands, compared by the relations on
/// the projected packages.
#[verifier::reject_recursive_types(DP)]
pub struct Quest<DP: DependencyProvider> {
    pub dp: DP,
    pub root: Key<DP>,
    pub version: VersionOf<DP>,
    pub demands: Clause<Key<DP>, VersionOf<DP>>,
    pub o: Precedence<VersionOf<DP>>,
    pub projection: Seq<Key<DP>>,
}

impl<DP: DependencyProvider> Quest<DP> {
    /// What a solver holds that is to meet these demands too.
    pub open spec fn asking(self, more: Clause<Key<DP>, VersionOf<DP>>) -> Core<
        Key<DP>,
        VersionOf<DP>,
    > {
        machine::ruling_out_all(
            machine::at_first(self.root, self.version),
            run::forced_clauses(self.root, self.version, self.demands + more),
        )
    }

    /// The terms that hold in another solution exactly when it reaches the goal.
    pub open spec fn aims_at(
        self,
        goal: Goal<Key<DP>>,
        list: Seq<(Key<DP>, VersionOf<DP>)>,
    ) -> Clause<Key<DP>, VersionOf<DP>> {
        goal_clause(goal, self.o, self.projection, list, list.len() as int)
    }

    /// How the search for an upgrade of the package ends.
    pub open spec fn probe(self, list: Seq<(Key<DP>, VersionOf<DP>)>, k: Key<DP>) -> Machine<
        Key<DP>,
        VersionOf<DP>,
    > {
        machine::run_of(
            self.dp,
            self.root,
            self.version,
            self.asking(self.aims_at(Goal::Improve(k), list)),
        )
    }

    /// What the search for a better solution finds from the projected package on, and tells.
    pub open spec fn probed(self, list: Seq<(Key<DP>, VersionOf<DP>)>, i: int) -> (
        Found<Key<DP>, VersionOf<DP>>,
        Seq<Observed<Key<DP>, VersionOf<DP>>>,
    )
        decreases self.projection.len() - i,
    {
        if i >= self.projection.len() {
            (Found::Best, Seq::empty())
        } else if !selected::lists(list, self.projection[i]) {
            self.probed(list, i + 1)
        } else {
            let k = self.projection[i];
            let end = self.probe(list, k);
            match end.end->0 {
                Outcome::Solved => (
                    Found::Better(machine::solution_list(end.core.trail)),
                    told_probe(k, end.told, MaximalityProbeResult::Improved),
                ),
                Outcome::NoSolution => {
                    let (found, told) = self.probed(list, i + 1);
                    (
                        found,
                        told_probe(k, end.told, MaximalityProbeResult::NoImprovement) + told,
                    )
                },
                outcome => (
                    Found::Failed(outcome),
                    told_probe(k, end.told, MaximalityProbeResult::Error),
                ),
            }
        }
    }

    /// The next step of a climb.
    pub open spec fn climb_step(self, a: Climb<Key<DP>, VersionOf<DP>>) -> Climb<
        Key<DP>,
        VersionOf<DP>,
    > {
        if a.end is Some {
            a
        } else {
            match first_flaw(self.o, self.projection, a.list, 0) {
                Some((k, v)) => Climb { end: Some(Outcome::InvalidOrdering(k, v)), ..a },
                None => {
                    let (found, told) = self.probed(a.list, 0);
                    match found {
                        Found::Better(list) => Climb { list, told: a.told + told, end: None },
                        Found::Best => Climb {
                            told: a.told + told,
                            end: Some(Outcome::Solved),
                            ..a
                        },
                        Found::Failed(outcome) => Climb {
                            told: a.told + told,
                            end: Some(outcome),
                            ..a
                        },
                    }
                },
            }
        }
    }

    /// Where a climb stands after so many steps.
    pub open spec fn climbed(self, a: Climb<Key<DP>, VersionOf<DP>>, n: nat) -> Climb<
        Key<DP>,
        VersionOf<DP>,
    >
        decreases n,
    {
        if n == 0 {
            a
        } else {
            self.climb_step(self.climbed(a, (n - 1) as nat))
        }
    }

    /// The climb from the solution comes to stand there, where the provider is deterministic.
    #[verifier::opaque]
    pub open spec fn climbs_to(
        self,
        list: Seq<(Key<DP>, VersionOf<DP>)>,
        a: Climb<Key<DP>, VersionOf<DP>>,
    ) -> bool {
        let begin = Climb { list, told: Seq::empty(), end: None };
        machine::is_deterministic(self.dp) ==> exists|n: nat| #[trigger] self.climbed(begin, n) == a
    }

    /// How the climb from the solution ends.
    pub open spec fn climb_of(self, list: Seq<(Key<DP>, VersionOf<DP>)>) -> Climb<
        Key<DP>,
        VersionOf<DP>,
    > {
        choose|a: Climb<Key<DP>, VersionOf<DP>>| a.end is Some && #[trigger] self.climbs_to(list, a)
    }

    /// What a solver holds that is to rule out what falls short of the solution at the first packages
    /// of the list.
    pub open spec fn falling(
        self,
        core: Core<Key<DP>, VersionOf<DP>>,
        list: Seq<(Key<DP>, VersionOf<DP>)>,
        n: int,
    ) -> Core<Key<DP>, VersionOf<DP>>
        decreases n,
    {
        if n <= 0 {
            core
        } else {
            let before = self.falling(core, list, n - 1);
            let k = list[n - 1].0;
            if self.projection.contains(k) {
                machine::ruling_out(before, self.aims_at(Goal::FallShort(k), list))
            } else {
                before
            }
        }
    }

    /// What a solver holds that is to rule out all that the solution speaks for.
    pub open spec fn without(
        self,
        core: Core<Key<DP>, VersionOf<DP>>,
        list: Seq<(Key<DP>, VersionOf<DP>)>,
    ) -> Core<Key<DP>, VersionOf<DP>> {
        let exact = self.aims_at(Goal::Repeat, list);
        if machine::tidied(exact).len() == 0 {
            core
        } else {
            self.falling(machine::ruling_out(core, exact), list, list.len() as int)
        }
    }

    /// The next step of an enumeration.
    pub open spec fn search_step(self, m: Search<Key<DP>, VersionOf<DP>>) -> Search<
        Key<DP>,
        VersionOf<DP>,
    > {
        if m.end is Some {
            m
        } else {
            let end = machine::run_of(self.dp, self.root, self.version, m.core);
            let run = observer::run_number(m.run + 1);
            let told = m.told + told_run(run, end.told);
            match end.end->0 {
                Outcome::Solved => self.take_step(
                    Search { core: end.core, run, told, ..m },
                    machine::solution_list(end.core.trail),
                ),
                Outcome::NoSolution => Search {
                    core: end.core,
                    run,
                    told,
                    end: Some(
                        if m.found.len() > 0 {
                            Outcome::Solved
                        } else {
                            Outcome::NoSolution
                        },
                    ),
                    ..m
                },
                outcome => Search { core: end.core, run, told, end: Some(outcome), ..m },
            }
        }
    }

    /// What is done about the solution that a run has found.
    pub open spec fn take_step(
        self,
        m: Search<Key<DP>, VersionOf<DP>>,
        list: Seq<(Key<DP>, VersionOf<DP>)>,
    ) -> Search<Key<DP>, VersionOf<DP>> {
        if self.projection.len() == 0 {
            Search {
                found: seq![list],
                told: m.told.push(Observed::Solution),
                end: Some(Outcome::Solved),
                ..m
            }
        } else {
            let top = self.climb_of(list);
            let told = m.told + top.told;
            match top.end->0 {
                Outcome::Solved => Search {
                    core: self.without(m.core, top.list),
                    found: m.found.push(top.list),
                    told: told.push(Observed::Solution),
                    end: if machine::tidied(self.aims_at(Goal::Repeat, top.list)).len() == 0 {
                        Some(Outcome::Solved)
                    } else {
                        None
                    },
                    ..m
                },
                outcome => Search { told, end: Some(outcome), ..m },
            }
        }
    }

    /// Where an enumeration stands after so many steps.
    pub open spec fn searched(self, n: nat) -> Search<Key<DP>, VersionOf<DP>>
        decreases n,
    {
        if n == 0 {
            Search {
                core: self.asking(Seq::empty()),
                found: Seq::empty(),
                run: 0,
                told: Seq::empty(),
                end: None,
            }
        } else {
            self.search_step(self.searched((n - 1) as nat))
        }
    }

    /// The enumeration comes to stand there, where the provider is deterministic.
    #[verifier::opaque]
    pub open spec fn comes_to(self, m: Search<Key<DP>, VersionOf<DP>>) -> bool {
        machine::is_deterministic(self.dp) ==> exists|n: nat| #[trigger] self.searched(n) == m
    }
}

/// What is told of one run of an enumeration.
pub open spec fn told_run<K, V>(run: u64, told: Seq<Observed<K, V>>) -> Seq<Observed<K, V>> {
    seq![Observed::EnumerationRunStarted(run)] + told + seq![Observed::EnumerationRunFinished(run)]
}

/// What was told between is told in between.
proof fn lemma_told_between<K, V>(
    from: int,
    earlier: Seq<Observed<K, V>>,
    begun: Observed<K, V>,
    heard: Seq<Observed<K, V>>,
    ended: Observed<K, V>,
)
    requires
        0 <= from <= earlier.len(),
        earlier.push(begun).is_prefix_of(heard),
        !observer::holds_tree(begun),
        !observer::holds_tree(ended),
    ensures
        machine::choices_told(from, heard.push(ended)) == machine::choices_told(from, earlier) + (
        seq![begun] + machine::choices_told(earlier.len() as int + 1, heard) + seq![ended]),
{
    let told = machine::choices_told(from, earlier);
    let between = machine::choices_told(earlier.len() as int + 1, heard);
    machine::lemma_choice_told(from, earlier, begun);
    machine::lemma_choices_chain(from, earlier.push(begun), heard);
    machine::lemma_choice_told(from, heard, ended);
    assert((told.push(begun) + between).push(ended) =~= told + (seq![begun] + between + seq![
        ended,
    ]));
}

impl<DP: DependencyProvider> Quest<DP> {
    /// The search for a better solution has come to the projected package, with this told.
    pub closed spec fn has_probed(
        self,
        list: Seq<(Key<DP>, VersionOf<DP>)>,
        i: int,
        told: Seq<Observed<Key<DP>, VersionOf<DP>>>,
    ) -> bool {
        let (found, rest) = self.probed(list, i);
        machine::is_deterministic(self.dp) ==> self.probed(list, 0) == (found, told + rest)
    }

    /// The search for a better solution ends like that.
    pub open spec fn ends_probing(
        self,
        list: Seq<(Key<DP>, VersionOf<DP>)>,
        found: Found<Key<DP>, VersionOf<DP>>,
        told: Seq<Observed<Key<DP>, VersionOf<DP>>>,
    ) -> bool {
        machine::is_deterministic(self.dp) ==> self.probed(list, 0) == (found, told)
    }

    /// The search for a better solution begins.
    pub proof fn begins_probing(
        self,
        list: Seq<(Key<DP>, VersionOf<DP>)>,
        told: Seq<Observed<Key<DP>, VersionOf<DP>>>,
    )
        requires
            told.len() == 0,
        ensures
            self.has_probed(list, 0, told),
    {
        let (found, rest) = self.probed(list, 0);
        assert(told + rest =~= rest);
    }

    /// The package is not selected.
    pub proof fn skips(
        self,
        list: Seq<(Key<DP>, VersionOf<DP>)>,
        i: int,
        told: Seq<Observed<Key<DP>, VersionOf<DP>>>,
    )
        requires
            self.has_probed(list, i, told),
            0 <= i < self.projection.len(),
            !selected::lists(list, self.projection[i]),
        ensures
            self.has_probed(list, i + 1, told),
    {
    }

    /// No projected package is left.
    pub proof fn finds_none(
        self,
        list: Seq<(Key<DP>, VersionOf<DP>)>,
        told: Seq<Observed<Key<DP>, VersionOf<DP>>>,
    )
        requires
            self.has_probed(list, self.projection.len() as int, told),
        ensures
            self.ends_probing(list, Found::Best, told),
    {
        assert(told + Seq::<Observed<Key<DP>, VersionOf<DP>>>::empty() =~= told);
    }

    /// The search for an upgrade of the package has been made.
    pub proof fn probes(
        self,
        list: Seq<(Key<DP>, VersionOf<DP>)>,
        i: int,
        from: int,
        earlier: Seq<Observed<Key<DP>, VersionOf<DP>>>,
        heard: Seq<Observed<Key<DP>, VersionOf<DP>>>,
        result: MaximalityProbeResult,
        course: Course<DP>,
        held: Core<Key<DP>, VersionOf<DP>>,
        outcome: Outcome<Key<DP>, VersionOf<DP>>,
    )
        requires
            0 <= i < self.projection.len(),
            0 <= from <= earlier.len(),
            self.has_probed(list, i, machine::choices_told(from, earlier)),
            selected::lists(list, self.projection[i]),
            earlier.push(Observed::MaximalityProbeStarted(self.projection[i])).is_prefix_of(heard),
            course == (Course {
                dp: self.dp,
                root: self.root,
                version: self.version,
                start: self.asking(self.aims_at(Goal::Improve(self.projection[i]), list)),
                from: earlier.len() as int + 1,
            }),
            course.has_ended(held, heard, outcome),
            match outcome {
                Outcome::Solved => result is Improved,
                Outcome::NoSolution => result is NoImprovement,
                _ => result is Error,
            },
        ensures
            ({
                let ended = Observed::MaximalityProbeFinished(self.projection[i], result);
                let told = machine::choices_told(from, heard.push(ended));
                match outcome {
                    Outcome::Solved => self.ends_probing(
                        list,
                        Found::Better(machine::solution_list(held.trail)),
                        told,
                    ),
                    Outcome::NoSolution => self.has_probed(list, i + 1, told),
                    _ => self.ends_probing(list, Found::Failed(outcome), told),
                }
            }),
    {
        let k = self.projection[i];
        let begun = Observed::<Key<DP>, VersionOf<DP>>::MaximalityProbeStarted(k);
        let ended = Observed::<Key<DP>, VersionOf<DP>>::MaximalityProbeFinished(k, result);
        lemma_told_between(from, earlier, begun, heard, ended);
        if machine::is_deterministic(self.dp) {
            let end = Machine {
                core: held,
                told: machine::choices_told(earlier.len() as int + 1, heard),
                end: Some(outcome),
            };
            machine::lemma_run_of(
                self.dp,
                self.root,
                self.version,
                self.asking(self.aims_at(Goal::Improve(k), list)),
                end,
            );
            assert(self.probe(list, k) == end);
            let told = machine::choices_told(from, earlier);
            let rest = self.probed(list, i + 1).1;
            assert(told + (told_probe(k, end.told, result) + rest) =~= (told + told_probe(
                k,
                end.told,
                result,
            )) + rest);
        }
    }

    proof fn lemma_climb_rests(self, a: Climb<Key<DP>, VersionOf<DP>>, m: nat, n: nat)
        requires
            self.climbed(a, m).end is Some,
            m <= n,
        ensures
            self.climbed(a, n) == self.climbed(a, m),
        decreases n,
    {
        if m < n {
            self.lemma_climb_rests(a, m, (n - 1) as nat);
        }
    }

    /// A climb ends in one way.
    pub proof fn lemma_climb_of(
        self,
        list: Seq<(Key<DP>, VersionOf<DP>)>,
        a: Climb<Key<DP>, VersionOf<DP>>,
    )
        requires
            machine::is_deterministic(self.dp),
            self.climbs_to(list, a),
            a.end is Some,
        ensures
            self.climb_of(list) == a,
    {
        let b = self.climb_of(list);
        assert(b.end is Some && self.climbs_to(list, b));
        reveal(Quest::climbs_to);
        let begin = Climb { list, told: Seq::empty(), end: None };
        let m = choose|n: nat| #[trigger] self.climbed(begin, n) == a;
        let n = choose|n: nat| #[trigger] self.climbed(begin, n) == b;
        if m <= n {
            self.lemma_climb_rests(begin, m, n);
        } else {
            self.lemma_climb_rests(begin, n, m);
        }
    }

    /// A climb begins.
    pub proof fn begins_climb(
        self,
        list: Seq<(Key<DP>, VersionOf<DP>)>,
        told: Seq<Observed<Key<DP>, VersionOf<DP>>>,
    )
        requires
            told.len() == 0,
        ensures
            self.climbs_to(list, Climb { list, told, end: None }),
    {
        reveal(Quest::climbs_to);
        let begin = Climb { list, told: Seq::empty(), end: None };
        assert(told =~= Seq::empty());
        assert(self.climbed(begin, 0) == begin);
    }

    /// A climb goes on.
    pub proof fn goes_on_climbing(
        self,
        list: Seq<(Key<DP>, VersionOf<DP>)>,
        a: Climb<Key<DP>, VersionOf<DP>>,
        b: Climb<Key<DP>, VersionOf<DP>>,
    )
        requires
            self.climbs_to(list, a),
            machine::is_deterministic(self.dp) ==> self.climb_step(a) == b,
        ensures
            self.climbs_to(list, b),
    {
        reveal(Quest::climbs_to);
        if machine::is_deterministic(self.dp) {
            let begin = Climb { list, told: Seq::empty(), end: None };
            let n = choose|n: nat| #[trigger] self.climbed(begin, n) == a;
            assert(self.climbed(begin, n + 1) == b);
        }
    }

    /// A round of a climb has been made.
    pub proof fn climbs_round(
        self,
        list: Seq<(Key<DP>, VersionOf<DP>)>,
        a: Climb<Key<DP>, VersionOf<DP>>,
        found: Found<Key<DP>, VersionOf<DP>>,
        told: Seq<Observed<Key<DP>, VersionOf<DP>>>,
    )
        requires
            self.climbs_to(list, a),
            a.end is None,
            first_flaw(self.o, self.projection, a.list, 0) is None,
            self.ends_probing(a.list, found, told),
        ensures
            match found {
                Found::Better(better) => self.climbs_to(
                    list,
                    Climb { list: better, told: a.told + told, end: None },
                ),
                Found::Best => self.climbs_to(
                    list,
                    Climb { told: a.told + told, end: Some(Outcome::Solved), ..a },
                ),
                Found::Failed(outcome) => self.climbs_to(
                    list,
                    Climb { told: a.told + told, end: Some(outcome), ..a },
                ),
            },
    {
        let b = match found {
            Found::Better(better) => Climb { list: better, told: a.told + told, end: None },
            Found::Best => Climb { told: a.told + told, end: Some(Outcome::Solved), ..a },
            Found::Failed(outcome) => Climb { told: a.told + told, end: Some(outcome), ..a },
        };
        self.goes_on_climbing(list, a, b);
    }

    proof fn lemma_search_rests(self, m: nat, n: nat)
        requires
            self.searched(m).end is Some,
            m <= n,
        ensures
            self.searched(n) == self.searched(m),
        decreases n,
    {
        if m < n {
            self.lemma_search_rests(m, (n - 1) as nat);
        }
    }

    /// An enumeration ends in one way.
    pub proof fn search_ends_in_one_way(
        self,
        a: Search<Key<DP>, VersionOf<DP>>,
        b: Search<Key<DP>, VersionOf<DP>>,
    )
        requires
            machine::is_deterministic(self.dp),
            self.comes_to(a),
            self.comes_to(b),
            a.end is Some,
            b.end is Some,
        ensures
            a == b,
    {
        reveal(Quest::comes_to);
        let m = choose|n: nat| #[trigger] self.searched(n) == a;
        let n = choose|n: nat| #[trigger] self.searched(n) == b;
        if m <= n {
            self.lemma_search_rests(m, n);
        } else {
            self.lemma_search_rests(n, m);
        }
    }

    /// An enumeration begins.
    pub proof fn begins_search(self, m: Search<Key<DP>, VersionOf<DP>>)
        requires
            m.core == self.asking(Seq::empty()),
            m.found.len() == 0,
            m.run == 0,
            m.told.len() == 0,
            m.end is None,
        ensures
            self.comes_to(m),
    {
        reveal(Quest::comes_to);
        assert(m.found =~= Seq::empty());
        assert(m.told =~= Seq::empty());
        assert(self.searched(0) == m);
    }

    proof fn lemma_goes_on(
        self,
        m: Search<Key<DP>, VersionOf<DP>>,
        after: Search<Key<DP>, VersionOf<DP>>,
    )
        requires
            self.comes_to(m),
            machine::is_deterministic(self.dp) ==> self.search_step(m) == after,
        ensures
            self.comes_to(after),
    {
        reveal(Quest::comes_to);
        if machine::is_deterministic(self.dp) {
            let n = choose|n: nat| #[trigger] self.searched(n) == m;
            assert(self.searched(n + 1) == after);
        }
    }

    /// An enumeration has made one run more, and turns to the solution.
    pub closed spec fn turns_to(
        self,
        m: Search<Key<DP>, VersionOf<DP>>,
        list: Seq<(Key<DP>, VersionOf<DP>)>,
    ) -> bool {
        self.comes_to(self.take_step(m, list))
    }

    /// A run has been made.
    pub proof fn makes_run(
        self,
        m: Search<Key<DP>, VersionOf<DP>>,
        from: int,
        earlier: Seq<Observed<Key<DP>, VersionOf<DP>>>,
        run: u64,
        heard: Seq<Observed<Key<DP>, VersionOf<DP>>>,
        held: Core<Key<DP>, VersionOf<DP>>,
        outcome: Outcome<Key<DP>, VersionOf<DP>>,
    )
        requires
            self.comes_to(m),
            m.end is None,
            0 <= from <= earlier.len(),
            m.told == machine::choices_told(from, earlier),
            run == observer::run_number(m.run + 1),
            earlier.push(Observed::EnumerationRunStarted(run)).is_prefix_of(heard),
            (Course {
                dp: self.dp,
                root: self.root,
                version: self.version,
                start: m.core,
                from: earlier.len() as int + 1,
            }).has_ended(held, heard, outcome),
        ensures
            ({
                let told = machine::choices_told(
                    from,
                    heard.push(Observed::EnumerationRunFinished(run)),
                );
                let after = Search { core: held, run, told, ..m };
                match outcome {
                    Outcome::Solved => self.turns_to(after, machine::solution_list(held.trail)),
                    Outcome::NoSolution => self.comes_to(
                        Search {
                            end: Some(
                                if m.found.len() > 0 {
                                    Outcome::Solved
                                } else {
                                    Outcome::NoSolution
                                },
                            ),
                            ..after
                        },
                    ),
                    _ => self.comes_to(Search { end: Some(outcome), ..after }),
                }
            }),
    {
        let begun = Observed::<Key<DP>, VersionOf<DP>>::EnumerationRunStarted(run);
        let ended = Observed::<Key<DP>, VersionOf<DP>>::EnumerationRunFinished(run);
        lemma_told_between(from, earlier, begun, heard, ended);
        let end = Machine {
            core: held,
            told: machine::choices_told(earlier.len() as int + 1, heard),
            end: Some(outcome),
        };
        if machine::is_deterministic(self.dp) {
            machine::lemma_run_of(self.dp, self.root, self.version, m.core, end);
        }
        let told = machine::choices_told(from, heard.push(ended));
        let after = Search { core: held, run, told, ..m };
        let next = match outcome {
            Outcome::Solved => self.take_step(after, machine::solution_list(held.trail)),
            Outcome::NoSolution => Search {
                end: Some(
                    if m.found.len() > 0 {
                        Outcome::Solved
                    } else {
                        Outcome::NoSolution
                    },
                ),
                ..after
            },
            _ => Search { end: Some(outcome), ..after },
        };
        self.lemma_goes_on(m, next);
    }

    proof fn lemma_same(
        self,
        m: Search<Key<DP>, VersionOf<DP>>,
        same: Search<Key<DP>, VersionOf<DP>>,
    )
        requires
            self.comes_to(m),
            machine::is_deterministic(self.dp) ==> m == same,
        ensures
            self.comes_to(same),
    {
        reveal(Quest::comes_to);
    }

    /// Without projected packages the first solution is the only one.
    pub proof fn takes_only(
        self,
        m: Search<Key<DP>, VersionOf<DP>>,
        list: Seq<(Key<DP>, VersionOf<DP>)>,
    )
        requires
            self.turns_to(m, list),
            self.projection.len() == 0,
        ensures
            self.comes_to(
                Search {
                    found: seq![list],
                    told: m.told.push(Observed::Solution),
                    end: Some(Outcome::Solved),
                    ..m
                },
            ),
    {
    }

    /// The climb from the solution fails.
    pub proof fn fails_climb(
        self,
        m: Search<Key<DP>, VersionOf<DP>>,
        list: Seq<(Key<DP>, VersionOf<DP>)>,
        a: Climb<Key<DP>, VersionOf<DP>>,
    )
        requires
            self.turns_to(m, list),
            self.projection.len() > 0,
            self.climbs_to(list, a),
            a.end is Some,
            !(a.end->0 is Solved),
        ensures
            self.comes_to(Search { told: m.told + a.told, end: a.end, ..m }),
    {
        if machine::is_deterministic(self.dp) {
            self.lemma_climb_of(list, a);
        }
        self.lemma_same(
            self.take_step(m, list),
            Search { told: m.told + a.told, end: a.end, ..m },
        );
    }

    /// What the climb from the solution has led to is taken, and what it speaks for is ruled out.
    pub proof fn takes_top(
        self,
        m: Search<Key<DP>, VersionOf<DP>>,
        list: Seq<(Key<DP>, VersionOf<DP>)>,
        a: Climb<Key<DP>, VersionOf<DP>>,
        more: bool,
    )
        requires
            self.turns_to(m, list),
            m.end is None,
            self.projection.len() > 0,
            self.climbs_to(list, a),
            a.end is Some,
            a.end->0 is Solved,
            more <==> machine::tidied(self.aims_at(Goal::Repeat, a.list)).len() > 0,
        ensures
            self.comes_to(
                Search {
                    core: self.without(m.core, a.list),
                    found: m.found.push(a.list),
                    told: (m.told + a.told).push(Observed::Solution),
                    end: if more {
                        None
                    } else {
                        Some(Outcome::Solved)
                    },
                    ..m
                },
            ),
    {
        if machine::is_deterministic(self.dp) {
            self.lemma_climb_of(list, a);
        }
        self.lemma_same(
            self.take_step(m, list),
            Search {
                core: self.without(m.core, a.list),
                found: m.found.push(a.list),
                told: (m.told + a.told).push(Observed::Solution),
                end: if more {
                    None
                } else {
                    Some(Outcome::Solved)
                },
                ..m
            },
        );
    }
}

} // verus!
