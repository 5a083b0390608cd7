//! The decisions that an observer of an enumeration can tell to be in force.

use vstd::prelude::*;

use crate::observer;
use crate::observer::{MaximalityProbeResult, Observed, SolverObserver};
use crate::package::Package;
use crate::problem::{Key, VersionOf};
use crate::provider::DependencyProvider;
use crate::run;
use crate::run::SolverState;
use crate::search::Clause;
use crate::trace::Step;
use crate::version_set::VersionSet;

verus! {

/// The decisions after the event. Whoever heeds it takes back what is discarded.
pub open spec fn next_decisions<K, V>(
    heeds: bool,
    decisions: Seq<(K, V)>,
    o: Observed<K, V>,
) -> Seq<(K, V)> {
    match o {
        Observed::Decision(k, v, _) => decisions.push((k, v)),
        Observed::Backtrack(_, to_level, _) => if heeds && to_level <= decisions.len() {
            decisions.take(to_level as int)
        } else {
            decisions
        },
        _ => decisions,
    }
}

/// The decisions at the end of the log, given those at its place `start`.
pub open spec fn gathered<K, V>(
    heeds: bool,
    decisions: Seq<(K, V)>,
    start: int,
    log: Seq<Observed<K, V>>,
) -> Seq<(K, V)>
    decreases log.len(),
{
    if log.len() <= start || log.len() == 0 {
        decisions
    } else {
        next_decisions(heeds, gathered(heeds, decisions, start, log.drop_last()), log.last())
    }
}

/// The decisions in the runs of an enumeration, one after the other; those of the probe that is under
/// way; and those that the last run has ended with, or the last probe since then that has found
/// something better.
pub struct Paths<K, V> {
    pub run: Seq<(K, V)>,
    pub probe: Option<Seq<(K, V)>>,
    pub best: Seq<(K, V)>,
}

/// No decision was made.
pub open spec fn no_paths<K, V>() -> Paths<K, V> {
    Paths { run: Seq::empty(), probe: None, best: Seq::empty() }
}

/// The paths after the event.
pub open spec fn next_paths<K, V>(
    heeds: bool,
    paths: Paths<K, V>,
    o: Observed<K, V>,
) -> Paths<K, V> {
    let Paths { run, probe, best } = paths;
    match o {
        Observed::EnumerationRunFinished(_) => Paths { run, probe, best: run },
        Observed::MaximalityProbeStarted(_) => Paths { run, probe: Some(Seq::empty()), best },
        Observed::MaximalityProbeFinished(_, MaximalityProbeResult::Improved) => Paths {
            run,
            probe: None,
            best: match probe {
                Some(decisions) => decisions,
                None => best,
            },
        },
        Observed::MaximalityProbeFinished(_, _) => Paths { run, probe: None, best },
        _ => match probe {
            Some(decisions) => Paths {
                run,
                probe: Some(next_decisions(heeds, decisions, o)),
                best,
            },
            None => Paths { run: next_decisions(heeds, run, o), probe, best },
        },
    }
}

/// The paths at the end of the log, given those at its place `start`.
pub open spec fn paths_after<K, V>(
    heeds: bool,
    from: Paths<K, V>,
    start: int,
    log: Seq<Observed<K, V>>,
) -> Paths<K, V>
    decreases log.len(),
{
    if log.len() <= start || log.len() == 0 {
        from
    } else {
        next_paths(heeds, paths_after(heeds, from, start, log.drop_last()), log.last())
    }
}

/// The decisions are those of the selection.
pub open spec fn make<K, V>(decisions: Seq<(K, V)>, s: Map<K, V>) -> bool {
    forall|k: K, v: V| #[trigger] decisions.contains((k, v)) <==> s.get(k) == Some(v)
}

/// Those of the selection are among the decisions.
pub open spec fn cover<K, V>(decisions: Seq<(K, V)>, s: Map<K, V>) -> bool {
    forall|k: K| #[trigger] s.dom().contains(k) ==> decisions.contains((k, s[k]))
}

/// The decisions belong to the selection. Those that are left where discarded ones are taken back are
/// exactly its own, for an observer that is told of everything.
pub open spec fn belong_to<P: Package, VS: VersionSet, M, O: SolverObserver<P, VS, M>>(
    heeds: bool,
    decisions: Seq<(P::V, VS::V)>,
    before: Seq<Observed<P::V, VS::V>>,
    after: Seq<Observed<P::V, VS::V>>,
    s: Map<P::V, VS::V>,
) -> bool {
    if heeds {
        observer::always_asks::<P, VS, M, O>() && observer::levels_fit(before.len() as int, after)
            ==> make(decisions, s)
    } else {
        cover(decisions, s)
    }
}

/// The decisions in force at the end of the log make the selection.
pub open spec fn in_force<P: Package, VS: VersionSet, M, O: SolverObserver<P, VS, M>>(
    before: Seq<Observed<P::V, VS::V>>,
    after: Seq<Observed<P::V, VS::V>>,
    s: Map<P::V, VS::V>,
) -> bool {
    forall|heeds: bool|
        belong_to::<P, VS, M, O>(
            heeds,
            (#[trigger] paths_after(heeds, no_paths(), before.len() as int, after)).best,
            before,
            after,
            s,
        )
}

/// The places of the solutions in the log, from `start` on.
pub open spec fn solution_places<K, V>(start: int, log: Seq<Observed<K, V>>) -> Seq<int>
    decreases log.len(),
{
    if log.len() <= start || log.len() == 0 {
        Seq::empty()
    } else {
        let earlier = solution_places(start, log.drop_last());
        if log.last() is Solution {
            earlier.push(log.len() - 1)
        } else {
            earlier
        }
    }
}

/// The solutions that the log announces are the selections, in this order: the decisions in force at
/// the place of each make the selection.
#[verifier::opaque]
pub open spec fn announces<P: Package, VS: VersionSet, M, O: SolverObserver<P, VS, M>>(
    before: Seq<Observed<P::V, VS::V>>,
    after: Seq<Observed<P::V, VS::V>>,
    found: Seq<Map<P::V, VS::V>>,
) -> bool {
    let places = solution_places(before.len() as int, after);
    &&& places.len() == found.len()
    &&& forall|i: int|
        0 <= i < found.len() ==> in_force::<P, VS, M, O>(
            before,
            after.take(places[i]),
            #[trigger] found[i],
        )
}

/// Probes have found the one selection, from the other one, and left the runs alone.
#[verifier::opaque]
pub open spec fn climbs_to<P: Package, VS: VersionSet, M, O: SolverObserver<P, VS, M>>(
    before: Seq<Observed<P::V, VS::V>>,
    after: Seq<Observed<P::V, VS::V>>,
    from: Map<P::V, VS::V>,
    to: Map<P::V, VS::V>,
) -> bool {
    forall|heeds: bool, paths: Paths<P::V, VS::V>|
        paths.probe is None ==> {
            let later = #[trigger] paths_after(heeds, paths, before.len() as int, after);
            &&& later.run == paths.run
            &&& later.probe is None
            &&& {
                ||| to == from && later.best == paths.best
                ||| belong_to::<P, VS, M, O>(heeds, later.best, before, after, to)
            }
        }
}

/// The decisions of the solver are those of the runs.
#[verifier::opaque]
pub open spec fn holds_runs<P: Package, VS: VersionSet, M, O: SolverObserver<P, VS, M>>(
    decided: Seq<(P::V, VS::V)>,
    before: Seq<Observed<P::V, VS::V>>,
    after: Seq<Observed<P::V, VS::V>>,
) -> bool {
    forall|heeds: bool|
        {
            let paths = #[trigger] paths_after(heeds, no_paths(), before.len() as int, after);
            &&& paths.probe is None
            &&& if heeds {
                observer::always_asks::<P, VS, M, O>() && observer::levels_fit(
                    before.len() as int,
                    after,
                ) ==> paths.run == decided
            } else {
                forall|k: P::V, v: VS::V| #[trigger]
                    decided.contains((k, v)) ==> paths.run.contains((k, v))
            }
        }
}

/// The events after the first log are those of one path, where the solver has gone from the one list
/// of decisions to the other.
pub open spec fn is_walked<P: Package, VS: VersionSet, M, O: SolverObserver<P, VS, M>>(
    made: Seq<(P::V, VS::V)>,
    left: Seq<(P::V, VS::V)>,
    before: Seq<Observed<P::V, VS::V>>,
    after: Seq<Observed<P::V, VS::V>>,
) -> bool {
    &&& observer::follows_path::<P, VS, M, O>(before, after)
    &&& run::knows_decisions(made, left, before, after)
    &&& observer::count_levels(
        made.len() as int,
        left.len() as int,
        before.len() as int,
        after,
        observer::always_asks::<P, VS, M, O>(),
    )
    &&& observer::always_asks::<P, VS, M, O>() && observer::levels_fit(before.len() as int, after)
        ==> left == observer::replayed(made, before.len() as int, after)
}

/// The events from one place to the other are those of a solver whose steps can be retraced. A probe
/// starts without any.
pub open spec fn is_stretch<DP: DependencyProvider, O: SolverObserver<DP::P, DP::VS, DP::M>>(
    dp: DP,
    root: Key<DP>,
    version: VersionOf<DP>,
    log: Seq<Observed<Key<DP>, VersionOf<DP>>>,
    a: int,
    b: int,
) -> bool {
    &&& exists|first: int, last: int| #[trigger]
        observer::count_levels(
            first,
            last,
            a,
            log.take(b),
            observer::always_asks::<DP::P, DP::VS, DP::M, O>(),
        ) && (log[a - 1] is MaximalityProbeStarted ==> first == 0)
    &&& exists|
        exclusions: Seq<Clause<Key<DP>, VersionOf<DP>>>,
        steps: Seq<Step<Key<DP>, VersionOf<DP>>>,
    | #[trigger]
        run::retells::<DP, O>(dp, root, version, exclusions, steps, log.take(a), log.take(b)) && (
        log[a - 1] is MaximalityProbeStarted ==> steps.len() == 0)
}

/// A run or a probe ends at the place, and what is told since it started are the events of a solver.
pub open spec fn ends_stretch<DP: DependencyProvider, O: SolverObserver<DP::P, DP::VS, DP::M>>(
    dp: DP,
    root: Key<DP>,
    version: VersionOf<DP>,
    log: Seq<Observed<Key<DP>, VersionOf<DP>>>,
    i: int,
) -> bool {
    exists|a: int|
        {
            &&& 0 < a <= i
            &&& log[a - 1] is EnumerationRunStarted || log[a - 1] is MaximalityProbeStarted
            &&& forall|j: int| a <= j < i ==> observer::on_path(#[trigger] log[j])
            &&& #[trigger] is_stretch::<DP, O>(dp, root, version, log, a, i)
        }
}

/// What is told within each run and each probe are the events of a solver, and no preference is tried.
#[verifier::opaque]
pub open spec fn are_stretches<DP: DependencyProvider, O: SolverObserver<DP::P, DP::VS, DP::M>>(
    dp: DP,
    root: Key<DP>,
    version: VersionOf<DP>,
    before: Seq<Observed<Key<DP>, VersionOf<DP>>>,
    after: Seq<Observed<Key<DP>, VersionOf<DP>>>,
) -> bool {
    &&& forall|i: int|
        before.len() <= i < after.len() && ((#[trigger] after[i]) is EnumerationRunFinished
            || after[i] is MaximalityProbeFinished) ==> ends_stretch::<DP, O>(
            dp,
            root,
            version,
            after,
            i,
        )
    &&& forall|i: int|
        before.len() <= i < after.len() ==> !((#[trigger] after[i]) is PreferenceProbeStarted)
            && !(after[i] is PreferenceProbeFinished)
}

/// What ends a stretch does so in a longer log.
proof fn lemma_ends_stretch<DP: DependencyProvider, O: SolverObserver<DP::P, DP::VS, DP::M>>(
    dp: DP,
    root: Key<DP>,
    version: VersionOf<DP>,
    log: Seq<Observed<Key<DP>, VersionOf<DP>>>,
    longer: Seq<Observed<Key<DP>, VersionOf<DP>>>,
    i: int,
)
    requires
        ends_stretch::<DP, O>(dp, root, version, log, i),
        0 <= i < log.len(),
        log.is_prefix_of(longer),
    ensures
        ends_stretch::<DP, O>(dp, root, version, longer, i),
{
    assert forall|j: int| 0 <= j < log.len() implies log[j] == longer[j] by {
        assert(log[j] == longer.subrange(0, log.len() as int)[j]);
    }
    let a = choose|a: int|
        {
            &&& 0 < a <= i
            &&& log[a - 1] is EnumerationRunStarted || log[a - 1] is MaximalityProbeStarted
            &&& forall|j: int| a <= j < i ==> observer::on_path(#[trigger] log[j])
            &&& #[trigger] is_stretch::<DP, O>(dp, root, version, log, a, i)
        };
    assert(log.take(a) =~= longer.take(a));
    assert(log.take(i) =~= longer.take(i));
    assert(is_stretch::<DP, O>(dp, root, version, longer, a, i));
    assert forall|j: int| a <= j < i implies observer::on_path(#[trigger] longer[j]) by {
        assert(log[j] == longer[j]);
    }
}

/// One part of the log after the other.
pub proof fn lemma_stretches_chain<
    DP: DependencyProvider,
    O: SolverObserver<DP::P, DP::VS, DP::M>,
>(
    dp: DP,
    root: Key<DP>,
    version: VersionOf<DP>,
    a: Seq<Observed<Key<DP>, VersionOf<DP>>>,
    b: Seq<Observed<Key<DP>, VersionOf<DP>>>,
    c: Seq<Observed<Key<DP>, VersionOf<DP>>>,
)
    requires
        are_stretches::<DP, O>(dp, root, version, a, b),
        are_stretches::<DP, O>(dp, root, version, b, c),
        b.is_prefix_of(c),
    ensures
        are_stretches::<DP, O>(dp, root, version, a, c),
{
    reveal(are_stretches);
    assert forall|i: int|
        a.len() <= i < c.len() && ((#[trigger] c[i]) is EnumerationRunFinished
            || c[i] is MaximalityProbeFinished) implies ends_stretch::<DP, O>(
        dp,
        root,
        version,
        c,
        i,
    ) by {
        if i < b.len() {
            assert(b[i] == c.subrange(0, b.len() as int)[i]);
            assert(b[i] == c[i]);
            lemma_ends_stretch::<DP, O>(dp, root, version, b, c, i);
        }
    }
    assert forall|i: int| a.len() <= i < c.len() implies !((
    #[trigger] c[i]) is PreferenceProbeStarted) && !(c[i] is PreferenceProbeFinished) by {
        if i < b.len() {
            assert(b[i] == c.subrange(0, b.len() as int)[i]);
            assert(b[i] == c[i]);
        }
    }
}

/// The announcement of a solution lies outside runs and probes.
pub proof fn lemma_no_stretch<DP: DependencyProvider, O: SolverObserver<DP::P, DP::VS, DP::M>>(
    dp: DP,
    root: Key<DP>,
    version: VersionOf<DP>,
    before: Seq<Observed<Key<DP>, VersionOf<DP>>>,
    after: Seq<Observed<Key<DP>, VersionOf<DP>>>,
)
    requires
        forall|i: int|
            before.len() <= i < after.len() ==> (#[trigger] after[i]) is Solution,
    ensures
        are_stretches::<DP, O>(dp, root, version, before, after),
{
    reveal(are_stretches);
}

/// One run or probe.
pub proof fn lemma_stretch<DP: DependencyProvider, O: SolverObserver<DP::P, DP::VS, DP::M>>(
    dp: DP,
    solver: SolverState<DP>,
    earlier: Seq<Observed<Key<DP>, VersionOf<DP>>>,
    begun: Observed<Key<DP>, VersionOf<DP>>,
    heard: Seq<Observed<Key<DP>, VersionOf<DP>>>,
    ended: Observed<Key<DP>, VersionOf<DP>>,
    left: Seq<(Key<DP>, VersionOf<DP>)>,
)
    requires
        begun is EnumerationRunStarted || begun is MaximalityProbeStarted && solver.is_blank()
            && solver.decided().len() == 0,
        is_walked::<DP::P, DP::VS, DP::M, O>(solver.decided(), left, earlier.push(begun), heard),
        ended is EnumerationRunFinished || ended is MaximalityProbeFinished,
        observer::follows_path::<DP::P, DP::VS, DP::M, O>(earlier.push(begun), heard),
        run::is_retraceable::<DP, O>(dp, solver, earlier.push(begun), heard),
    ensures
        are_stretches::<DP, O>(
            dp,
            solver.root(),
            solver.version(),
            earlier,
            heard.push(ended),
        ),
{
    reveal(run::is_retraceable);
    reveal(are_stretches);
    let root = solver.root();
    let version = solver.version();
    let told = earlier.push(begun);
    let after = heard.push(ended);
    let a = told.len() as int;
    let b = heard.len() as int;
    assert forall|j: int| 0 <= j < told.len() implies told[j] == after[j] by {
        assert(told[j] == heard.subrange(0, told.len() as int)[j]);
    }
    assert(after.take(a) =~= told);
    assert(after.take(b) =~= heard);
    assert(after[a - 1] == begun);
    assert(observer::count_levels(
        solver.decided().len() as int,
        left.len() as int,
        a,
        after.take(b),
        observer::always_asks::<DP::P, DP::VS, DP::M, O>(),
    ));
    assert(run::retells::<DP, O>(
        dp,
        root,
        version,
        solver.exclusions(),
        solver.steps(),
        after.take(a),
        after.take(b),
    ));
    assert(is_stretch::<DP, O>(dp, root, version, after, a, b));
    assert forall|j: int| a <= j < b implies observer::on_path(#[trigger] after[j]) by {
        assert(after[j] == heard[j]);
    }
    assert forall|i: int|
        earlier.len() <= i < after.len() && ((#[trigger] after[i]) is EnumerationRunFinished
            || after[i] is MaximalityProbeFinished) implies ends_stretch::<DP, O>(
        dp,
        root,
        version,
        after,
        i,
    ) by {
        if i < a {
            assert(after[i] == told[i]);
        } else if i < b {
            assert(observer::on_path(after[i]));
        }
    }
    assert forall|i: int| earlier.len() <= i < after.len() implies !((
    #[trigger] after[i]) is PreferenceProbeStarted) && !(after[i] is PreferenceProbeFinished) by {
        if i < a {
            assert(after[i] == told[i]);
        } else if i < b {
            assert(observer::on_path(after[i]));
        }
    }
}

proof fn lemma_shorter<T>(a: Seq<T>, b: Seq<T>)
    requires
        a.is_prefix_of(b),
        a.len() < b.len(),
    ensures
        a.is_prefix_of(b.drop_last()),
{
    assert(a =~= b.drop_last().subrange(0, a.len() as int)) by {
        assert forall|i: int| 0 <= i < a.len() implies a[i] == b.drop_last()[i] by {
            assert(a[i] == b.subrange(0, a.len() as int)[i]);
        }
    }
}

proof fn lemma_paths_chain<K, V>(
    heeds: bool,
    from: Paths<K, V>,
    start: int,
    b: Seq<Observed<K, V>>,
    c: Seq<Observed<K, V>>,
)
    requires
        0 <= start <= b.len(),
        b.is_prefix_of(c),
    ensures
        paths_after(heeds, from, start, c) == paths_after(
            heeds,
            paths_after(heeds, from, start, b),
            b.len() as int,
            c,
        ),
    decreases c.len(),
{
    if c.len() == b.len() {
        assert(c =~= b);
    } else {
        lemma_shorter(b, c);
        lemma_paths_chain(heeds, from, start, b, c.drop_last());
    }
}

/// The events of one path go to the probe that is under way, or else to the runs.
proof fn lemma_paths_walked<K, V>(
    heeds: bool,
    from: Paths<K, V>,
    start: int,
    log: Seq<Observed<K, V>>,
)
    requires
        forall|i: int| start <= i < log.len() ==> observer::on_path(#[trigger] log[i]),
        0 <= start,
    ensures
        paths_after(heeds, from, start, log) == match from.probe {
            Some(decisions) => Paths {
                run: from.run,
                probe: Some(gathered(heeds, decisions, start, log)),
                best: from.best,
            },
            None => Paths {
                run: gathered(heeds, from.run, start, log),
                probe: None,
                best: from.best,
            },
        },
    decreases log.len(),
{
    if log.len() > start {
        let shorter = log.drop_last();
        assert forall|i: int| start <= i < shorter.len() implies observer::on_path(
            #[trigger] shorter[i],
        ) by {
            assert(shorter[i] == log[i]);
        }
        lemma_paths_walked(heeds, from, start, shorter);
        assert(observer::on_path(log[log.len() - 1]));
    }
}

/// What is gathered where discarded decisions are taken back is what a replay leaves.
proof fn lemma_gathered_replayed<K, V>(
    decisions: Seq<(K, V)>,
    start: int,
    log: Seq<Observed<K, V>>,
)
    ensures
        gathered(true, decisions, start, log) == observer::replayed(decisions, start, log),
    decreases log.len(),
{
    if log.len() > start && log.len() > 0 {
        lemma_gathered_replayed(decisions, start, log.drop_last());
    }
}

/// Where nothing is taken back, what was held before and whatever is decided is gathered.
proof fn lemma_gathered<K, V>(
    decisions: Seq<(K, V)>,
    start: int,
    log: Seq<Observed<K, V>>,
    k: K,
    v: V,
)
    requires
        0 <= start,
        decisions.contains((k, v)) || exists|i: int|
            start <= i < log.len() && (#[trigger] log[i]) is Decision && log[i]->Decision_0 == k
                && log[i]->Decision_1 == v,
    ensures
        gathered(false, decisions, start, log).contains((k, v)),
    decreases log.len(),
{
    if log.len() > start {
        let shorter = log.drop_last();
        let earlier = gathered(false, decisions, start, shorter);
        let after = gathered(false, decisions, start, log);
        let last = log.last();
        if last is Decision && last->Decision_0 == k && last->Decision_1 == v {
            assert(after[earlier.len() as int] == (k, v));
        } else {
            if !decisions.contains((k, v)) {
                let i = choose|i: int|
                    start <= i < log.len() && (#[trigger] log[i]) is Decision
                        && log[i]->Decision_0 == k && log[i]->Decision_1 == v;
                assert(i < log.len() - 1);
                assert(shorter[i] == log[i]);
            }
            lemma_gathered(decisions, start, shorter, k, v);
            let m = choose|m: int| 0 <= m < earlier.len() && earlier[m] == (k, v);
            assert(after[m] == (k, v));
        }
    }
}

/// Levels that fit in the whole log fit in a part of it.
proof fn lemma_levels_fit<K, V>(a: int, b: int, c: Seq<Observed<K, V>>, d: Seq<Observed<K, V>>)
    requires
        observer::levels_fit(a, d),
        0 <= a <= b,
        c.is_prefix_of(d),
    ensures
        observer::levels_fit(b, c),
{
    assert forall|i: int| b <= i < c.len() && (#[trigger] c[i]) is Backtrack implies
        c[i]->Backtrack_0 < u32::MAX by {
        assert(c[i] == d.subrange(0, c.len() as int)[i]);
        assert(d[i] == c[i]);
    }
}

/// Where nothing is told, nothing changes.
pub proof fn lemma_nothing_announced<P: Package, VS: VersionSet, M, O: SolverObserver<P, VS, M>>(
    log: Seq<Observed<P::V, VS::V>>,
    s: Map<P::V, VS::V>,
)
    ensures
        announces::<P, VS, M, O>(log, log, Seq::empty()),
        climbs_to::<P, VS, M, O>(log, log, s, s),
        holds_runs::<P, VS, M, O>(Seq::empty(), log, log),
{
    reveal(announces);
    reveal(climbs_to);
    reveal(holds_runs);
}

/// One climb after the other.
pub proof fn lemma_climbs_chain<P: Package, VS: VersionSet, M, O: SolverObserver<P, VS, M>>(
    a: Seq<Observed<P::V, VS::V>>,
    b: Seq<Observed<P::V, VS::V>>,
    c: Seq<Observed<P::V, VS::V>>,
    s: Map<P::V, VS::V>,
    t: Map<P::V, VS::V>,
    u: Map<P::V, VS::V>,
)
    requires
        climbs_to::<P, VS, M, O>(a, b, s, t),
        climbs_to::<P, VS, M, O>(b, c, t, u),
        a.len() <= b.len(),
        b.is_prefix_of(c),
    ensures
        climbs_to::<P, VS, M, O>(a, c, s, u),
{
    reveal(climbs_to);
    assert forall|heeds: bool, paths: Paths<P::V, VS::V>| paths.probe is None implies {
        let later = #[trigger] paths_after(heeds, paths, a.len() as int, c);
        &&& later.run == paths.run
        &&& later.probe is None
        &&& {
            ||| u == s && later.best == paths.best
            ||| belong_to::<P, VS, M, O>(heeds, later.best, a, c, u)
        }
    } by {
        let middle = paths_after(heeds, paths, a.len() as int, b);
        let later = paths_after(heeds, middle, b.len() as int, c);
        lemma_paths_chain(heeds, paths, a.len() as int, b, c);
        if observer::levels_fit(a.len() as int, c) {
            lemma_levels_fit(a.len() as int, a.len() as int, b, c);
            assert(c =~= c.subrange(0, c.len() as int));
            lemma_levels_fit(a.len() as int, b.len() as int, c, c);
        }
    }
}

/// One probe: where it succeeds, its decisions are the ones in force.
pub proof fn lemma_climb_probe<P: Package, VS: VersionSet, M, O: SolverObserver<P, VS, M>>(
    earlier: Seq<Observed<P::V, VS::V>>,
    k: P::V,
    heard: Seq<Observed<P::V, VS::V>>,
    result: MaximalityProbeResult,
    left: Seq<(P::V, VS::V)>,
    s: Map<P::V, VS::V>,
    t: Map<P::V, VS::V>,
)
    requires
        is_walked::<P, VS, M, O>(
            Seq::empty(),
            left,
            earlier.push(Observed::MaximalityProbeStarted(k)),
            heard,
        ),
        result is Improved ==> cover(left, t) && (observer::always_asks::<P, VS, M, O>()
            && observer::levels_fit(earlier.len() as int + 1, heard) ==> make(left, t)),
        !(result is Improved) ==> t == s,
    ensures
        climbs_to::<P, VS, M, O>(
            earlier,
            heard.push(Observed::MaximalityProbeFinished(k, result)),
            s,
            t,
        ),
{
    reveal(climbs_to);
    let begun = Observed::<P::V, VS::V>::MaximalityProbeStarted(k);
    let ended = Observed::<P::V, VS::V>::MaximalityProbeFinished(k, result);
    let told = earlier.push(begun);
    let after = heard.push(ended);
    let nothing = Seq::<(P::V, VS::V)>::empty();
    assert(told.drop_last() =~= earlier);
    assert(after.drop_last() =~= heard);
    assert(heard =~= after.subrange(0, heard.len() as int));
    assert forall|heeds: bool, paths: Paths<P::V, VS::V>| paths.probe is None implies {
        let later = #[trigger] paths_after(heeds, paths, earlier.len() as int, after);
        &&& later.run == paths.run
        &&& later.probe is None
        &&& {
            ||| t == s && later.best == paths.best
            ||| belong_to::<P, VS, M, O>(heeds, later.best, earlier, after, t)
        }
    } by {
        let probing = paths_after(heeds, paths, earlier.len() as int, told);
        assert(paths_after(heeds, paths, earlier.len() as int, earlier) == paths);
        assert(probing.probe == Some(nothing));
        lemma_paths_chain(heeds, paths, earlier.len() as int, told, heard);
        lemma_paths_walked(heeds, probing, told.len() as int, heard);
        let decisions = gathered(heeds, nothing, told.len() as int, heard);
        if heeds {
            lemma_gathered_replayed(nothing, told.len() as int, heard);
            if observer::levels_fit(earlier.len() as int, after) {
                lemma_levels_fit(earlier.len() as int, told.len() as int, heard, after);
            }
        } else if result is Improved {
            assert forall|x: P::V| #[trigger] t.dom().contains(x) implies decisions.contains(
                (x, t[x]),
            ) by {
                assert(left.contains((x, t[x])));
                assert(!nothing.contains((x, t[x])));
                lemma_gathered(nothing, told.len() as int, heard, x, t[x]);
            }
        }
    }
}

/// One run: the decisions of the solver are the ones in force.
pub proof fn lemma_runs_walked<P: Package, VS: VersionSet, M, O: SolverObserver<P, VS, M>>(
    log: Seq<Observed<P::V, VS::V>>,
    earlier: Seq<Observed<P::V, VS::V>>,
    n: u64,
    heard: Seq<Observed<P::V, VS::V>>,
    made: Seq<(P::V, VS::V)>,
    left: Seq<(P::V, VS::V)>,
)
    requires
        log.len() <= earlier.len(),
        holds_runs::<P, VS, M, O>(made, log, earlier),
        is_walked::<P, VS, M, O>(
            made,
            left,
            earlier.push(Observed::EnumerationRunStarted(n)),
            heard,
        ),
    ensures
        holds_runs::<P, VS, M, O>(left, log, heard.push(Observed::EnumerationRunFinished(n))),
        forall|s: Map<P::V, VS::V>|
            cover(left, s) && (observer::always_asks::<P, VS, M, O>() && observer::levels_fit(
                log.len() as int,
                heard,
            ) ==> make(left, s)) ==> #[trigger] in_force::<P, VS, M, O>(
                log,
                heard.push(Observed::EnumerationRunFinished(n)),
                s,
            ),
{
    reveal(holds_runs);
    let begun = Observed::<P::V, VS::V>::EnumerationRunStarted(n);
    let ended = Observed::<P::V, VS::V>::EnumerationRunFinished(n);
    let told = earlier.push(begun);
    let after = heard.push(ended);
    let start = log.len() as int;
    assert(told.drop_last() =~= earlier);
    assert(earlier =~= told.subrange(0, earlier.len() as int));
    assert(after.drop_last() =~= heard);
    assert(heard =~= after.subrange(0, heard.len() as int));
    assert forall|heeds: bool|
        {
            let paths = #[trigger] paths_after(heeds, no_paths(), start, after);
            &&& paths.probe is None
            &&& paths.best == paths.run
            &&& if heeds {
                observer::always_asks::<P, VS, M, O>() && observer::levels_fit(start, after)
                    ==> paths.run == left
            } else {
                forall|k: P::V, v: VS::V| #[trigger]
                    left.contains((k, v)) ==> paths.run.contains((k, v))
            }
        } by {
        let idle = paths_after(heeds, no_paths::<P::V, VS::V>(), start, earlier);
        let running = paths_after(heeds, no_paths::<P::V, VS::V>(), start, told);
        assert(running == idle);
        lemma_paths_chain(heeds, no_paths::<P::V, VS::V>(), start, told, heard);
        lemma_paths_walked(heeds, running, told.len() as int, heard);
        let decisions = gathered(heeds, idle.run, told.len() as int, heard);
        if heeds {
            lemma_gathered_replayed(idle.run, told.len() as int, heard);
            if observer::levels_fit(start, after) {
                observer::lemma_prefix_chain(earlier, told, heard);
                observer::lemma_prefix_chain(earlier, heard, after);
                lemma_levels_fit(start, start, earlier, after);
                lemma_levels_fit(start, told.len() as int, heard, after);
            }
        } else {
            assert forall|k: P::V, v: VS::V| #[trigger] left.contains((k, v)) implies
                decisions.contains((k, v)) by {
                if made.contains((k, v)) {
                    assert(idle.run.contains((k, v)));
                }
                lemma_gathered(idle.run, told.len() as int, heard, k, v);
            }
        }
    }
    assert forall|s: Map<P::V, VS::V>|
        cover(left, s) && (observer::always_asks::<P, VS, M, O>() && observer::levels_fit(
            start,
            heard,
        ) ==> make(left, s)) implies #[trigger] in_force::<P, VS, M, O>(log, after, s) by {
        assert forall|heeds: bool|
            belong_to::<P, VS, M, O>(
                heeds,
                (#[trigger] paths_after(heeds, no_paths(), start, after)).best,
                log,
                after,
                s,
            ) by {
            if heeds && observer::levels_fit(start, after) {
                lemma_levels_fit(start, start, heard, after);
            }
        }
    }
}

/// Probes leave the runs alone, and what they find is in force.
pub proof fn lemma_climbed<P: Package, VS: VersionSet, M, O: SolverObserver<P, VS, M>>(
    log: Seq<Observed<P::V, VS::V>>,
    told: Seq<Observed<P::V, VS::V>>,
    after: Seq<Observed<P::V, VS::V>>,
    decided: Seq<(P::V, VS::V)>,
    s: Map<P::V, VS::V>,
    t: Map<P::V, VS::V>,
)
    requires
        log.len() <= told.len(),
        told.is_prefix_of(after),
        holds_runs::<P, VS, M, O>(decided, log, told),
        in_force::<P, VS, M, O>(log, told, s),
        climbs_to::<P, VS, M, O>(told, after, s, t),
    ensures
        holds_runs::<P, VS, M, O>(decided, log, after),
        in_force::<P, VS, M, O>(log, after, t),
{
    reveal(holds_runs);
    reveal(climbs_to);
    let start = log.len() as int;
    assert forall|heeds: bool|
        {
            let paths = #[trigger] paths_after(heeds, no_paths(), start, after);
            &&& paths.probe is None
            &&& belong_to::<P, VS, M, O>(heeds, paths.best, log, after, t)
            &&& if heeds {
                observer::always_asks::<P, VS, M, O>() && observer::levels_fit(start, after)
                    ==> paths.run == decided
            } else {
                forall|k: P::V, v: VS::V| #[trigger]
                    decided.contains((k, v)) ==> paths.run.contains((k, v))
            }
        } by {
        let middle = paths_after(heeds, no_paths::<P::V, VS::V>(), start, told);
        lemma_paths_chain(heeds, no_paths::<P::V, VS::V>(), start, told, after);
        let later = paths_after(heeds, middle, told.len() as int, after);
        if observer::levels_fit(start, after) {
            lemma_levels_fit(start, start, told, after);
            assert(after =~= after.subrange(0, after.len() as int));
            lemma_levels_fit(start, told.len() as int, after, after);
        }
    }
}

proof fn lemma_places<K, V>(start: int, a: Seq<Observed<K, V>>, b: Seq<Observed<K, V>>)
    requires
        0 <= start <= a.len(),
        a.is_prefix_of(b),
    ensures
        solution_places(start, a).is_prefix_of(solution_places(start, b)),
        solution_places(start, b).len() - solution_places(start, a).len() == observer::total(
            b,
            observer::solution_weight(),
        ) - observer::total(a, observer::solution_weight()),
        forall|i: int|
            0 <= i < solution_places(start, b).len() ==> start <= #[trigger] solution_places(
                start,
                b,
            )[i] < b.len(),
    decreases b.len(),
{
    if b.len() == a.len() {
        assert(b =~= a);
        let all = solution_places(start, b);
        assert(all =~= all.subrange(0, all.len() as int));
        if b.len() > start {
            let shorter = b.drop_last();
            assert(shorter =~= shorter.subrange(0, shorter.len() as int));
            lemma_places(start, shorter, shorter);
            assert forall|i: int| 0 <= i < all.len() implies start <= #[trigger] all[i] < b.len() by {
                if i < solution_places(start, shorter).len() {
                    assert(all[i] == solution_places(start, shorter)[i]);
                }
            }
        }
    } else {
        lemma_shorter(a, b);
        let shorter = b.drop_last();
        lemma_places(start, a, shorter);
        let first = solution_places(start, a);
        let middle = solution_places(start, shorter);
        let all = solution_places(start, b);
        assert(first =~= all.subrange(0, first.len() as int)) by {
            assert forall|i: int| 0 <= i < first.len() implies first[i] == all[i] by {
                assert(first[i] == middle.subrange(0, first.len() as int)[i]);
            }
        }
        assert forall|i: int| 0 <= i < all.len() implies start <= #[trigger] all[i] < b.len() by {
            if i < middle.len() {
                assert(all[i] == middle[i]);
            }
        }
    }
}

/// What was announced stays, where no solution is announced after it.
pub proof fn lemma_announced_later<P: Package, VS: VersionSet, M, O: SolverObserver<P, VS, M>>(
    log: Seq<Observed<P::V, VS::V>>,
    a: Seq<Observed<P::V, VS::V>>,
    b: Seq<Observed<P::V, VS::V>>,
    found: Seq<Map<P::V, VS::V>>,
)
    requires
        announces::<P, VS, M, O>(log, a, found),
        log.len() <= a.len(),
        a.is_prefix_of(b),
        observer::total(a, observer::solution_weight()) == observer::total(
            b,
            observer::solution_weight(),
        ),
    ensures
        announces::<P, VS, M, O>(log, b, found),
{
    reveal(announces);
    let start = log.len() as int;
    lemma_places(start, a, b);
    assert(a =~= a.subrange(0, a.len() as int));
    lemma_places(start, a, a);
    let first = solution_places(start, a);
    let all = solution_places(start, b);
    assert(first =~= all) by {
        assert(first =~= all.subrange(0, first.len() as int));
    }
    assert forall|i: int| 0 <= i < found.len() implies in_force::<P, VS, M, O>(
        log,
        b.take(all[i]),
        #[trigger] found[i],
    ) by {
        assert(first[i] == all[i]);
        assert(a.take(first[i]) =~= b.take(all[i])) by {
            assert forall|j: int| 0 <= j < first[i] implies a[j] == b[j] by {
                assert(a[j] == b.subrange(0, a.len() as int)[j]);
            }
        }
    }
}

/// One solution more is announced, made by the decisions in force.
pub proof fn lemma_announced_push<P: Package, VS: VersionSet, M, O: SolverObserver<P, VS, M>>(
    log: Seq<Observed<P::V, VS::V>>,
    told: Seq<Observed<P::V, VS::V>>,
    decided: Seq<(P::V, VS::V)>,
    found: Seq<Map<P::V, VS::V>>,
    s: Map<P::V, VS::V>,
)
    requires
        announces::<P, VS, M, O>(log, told, found),
        holds_runs::<P, VS, M, O>(decided, log, told),
        log.len() <= told.len(),
        in_force::<P, VS, M, O>(log, told, s),
    ensures
        announces::<P, VS, M, O>(log, told.push(Observed::Solution), found.push(s)),
        holds_runs::<P, VS, M, O>(decided, log, told.push(Observed::Solution)),
{
    reveal(announces);
    reveal(holds_runs);
    let start = log.len() as int;
    let after = told.push(Observed::<P::V, VS::V>::Solution);
    let more = found.push(s);
    assert(after.drop_last() =~= told);
    assert(told =~= told.subrange(0, told.len() as int));
    lemma_places(start, told, told);
    let first = solution_places(start, told);
    let all = solution_places(start, after);
    assert forall|i: int| 0 <= i < more.len() implies in_force::<P, VS, M, O>(
        log,
        after.take(all[i]),
        #[trigger] more[i],
    ) by {
        if i < found.len() {
            assert(more[i] == found[i]);
            assert(all[i] == first[i]);
            assert(after.take(all[i]) =~= told.take(first[i]));
        } else {
            assert(after.take(all[i]) =~= told);
        }
    }
    assert forall|heeds: bool|
        {
            let paths = #[trigger] paths_after(heeds, no_paths(), start, after);
            &&& paths.probe is None
            &&& if heeds {
                observer::always_asks::<P, VS, M, O>() && observer::levels_fit(start, after)
                    ==> paths.run == decided
            } else {
                forall|k: P::V, v: VS::V| #[trigger]
                    decided.contains((k, v)) ==> paths.run.contains((k, v))
            }
        } by {
        let paths = paths_after(heeds, no_paths::<P::V, VS::V>(), start, told);
        assert(paths_after(heeds, no_paths::<P::V, VS::V>(), start, after) == paths);
        if observer::levels_fit(start, after) {
            assert(told =~= after.subrange(0, told.len() as int));
            lemma_levels_fit(start, start, told, after);
        }
    }
}

} // verus!
