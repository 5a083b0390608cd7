//! What the search does, as a function of what it knows and of what the provider answers.

use vstd::prelude::*;

use crate::observer;
use crate::observer::Observed;
use crate::priority;
use crate::problem;
use crate::problem::{Key, VersionOf};
use crate::progress;
use crate::provider::{Dependencies, DependencyProvider, IncompatibilityConstraints};
use crate::search;
use crate::search::{Clause, Entry};
use crate::selected;
use crate::term;
use crate::tracker;
use crate::tracker::Counts;
use crate::version_set::VersionSet;

verus! {

/// The clause with at most one part per package, and without those that always hold.
pub open spec fn tidied<K, V>(clause: Clause<K, V>) -> Clause<K, V>
    decreases clause.len(),
{
    if clause.len() == 0 {
        Seq::empty()
    } else {
        let before = tidied(clause.drop_last());
        let last = clause.last();
        if search::mentions(before, last.0) {
            Seq::new(
                before.len(),
                |i: int|
                    if before[i].0 == last.0 {
                        (last.0, before[i].1.intersect(last.1))
                    } else {
                        before[i]
                    },
            )
        } else if last.1 == Set::<Option<V>>::full() {
            before
        } else {
            before.push(last)
        }
    }
}

/// How a clause stands to a trail.
pub enum Standing {
    /// It is satisfied.
    Satisfied,
    /// All its parts are certain but the one at the place, which may hold.
    Calls(int),
    /// Neither.
    Open,
}

/// All parts of the clause are certain but the one at the place, which may hold.
pub open spec fn calls_at<K, V>(clause: Clause<K, V>, trail: Seq<Entry<K, V>>, j: int) -> bool {
    &&& 0 <= j < clause.len()
    &&& search::satisfied_except(clause, trail, clause[j].0)
    &&& !search::open_states(trail, clause[j].0).subset_of(clause[j].1)
    &&& !search::open_states(trail, clause[j].0).disjoint(clause[j].1)
}

/// How the clause stands to the trail.
pub open spec fn standing<K, V>(clause: Clause<K, V>, trail: Seq<Entry<K, V>>) -> Standing {
    if search::satisfied(clause, trail) {
        Standing::Satisfied
    } else if exists|j: int| calls_at(clause, trail, j) {
        Standing::Calls(choose|j: int| calls_at(clause, trail, j))
    } else {
        Standing::Open
    }
}

/// At most one part of a clause is the one that is called for.
pub proof fn lemma_calls_at<K, V>(clause: Clause<K, V>, trail: Seq<Entry<K, V>>, j: int)
    requires
        search::distinct(clause),
        calls_at(clause, trail, j),
    ensures
        standing(clause, trail) == Standing::Calls(j),
{
    let m = choose|m: int| calls_at(clause, trail, m);
    if m != j {
        assert(clause[m].0 != clause[j].0);
    }
    if search::satisfied(clause, trail) {
        assert(search::open_states(trail, clause[j].0).subset_of(clause[j].1));
    }
}

/// The step that the clause calls for about the package.
pub open spec fn derived<K, V>(
    clauses: Seq<Clause<K, V>>,
    trail: Seq<Entry<K, V>>,
    c: int,
    k: K,
) -> Entry<K, V> {
    Entry {
        key: k,
        set: search::open_states(trail, k).intersect(search::at(clauses[c], k).complement()),
        cause: Some(c),
        level: search::level(trail),
    }
}

/// The parts of the first clause but for the package, up to `n`, narrowed by the second one.
pub open spec fn narrowed<K, V>(a: Clause<K, V>, b: Clause<K, V>, k: K, n: int) -> Clause<K, V>
    decreases n,
{
    if n <= 0 {
        Seq::empty()
    } else {
        let before = narrowed(a, b, k, n - 1);
        let part = a[n - 1];
        if part.0 == k {
            before
        } else {
            before.push((part.0, part.1.intersect(search::at(b, part.0))))
        }
    }
}

/// The parts of the second clause but for the package, up to `n`, of which the first one does not
/// speak.
pub open spec fn added<K, V>(a: Clause<K, V>, b: Clause<K, V>, k: K, n: int) -> Clause<K, V>
    decreases n,
{
    if n <= 0 {
        Seq::empty()
    } else {
        let before = added(a, b, k, n - 1);
        let part = b[n - 1];
        if part.0 == k || search::mentions(a, part.0) {
            before
        } else {
            before.push(part)
        }
    }
}

/// What follows from both clauses, whatever the state of the package.
pub open spec fn resolvent<K, V>(a: Clause<K, V>, b: Clause<K, V>, k: K) -> Clause<K, V> {
    let without = narrowed(a, b, k, a.len() as int) + added(a, b, k, b.len() as int);
    let either = search::at(a, k).union(search::at(b, k));
    if search::mentions(a, k) && search::mentions(b, k) && either != Set::<Option<V>>::full() {
        without.push((k, either))
    } else {
        without
    }
}

/// How much of the trail satisfies the clause, at most `n` steps of it.
pub open spec fn earliest<K, V>(clause: Clause<K, V>, trail: Seq<Entry<K, V>>, n: int) -> int
    decreases n,
{
    if n > 0 && search::satisfied(clause, trail.take(n - 1)) {
        earliest(clause, trail, n - 1)
    } else {
        n
    }
}

/// How much of the trail satisfies the clause, at most `n` steps of it, given what is known of one
/// package.
pub open spec fn earliest_within<K, V>(
    clause: Clause<K, V>,
    trail: Seq<Entry<K, V>>,
    n: int,
    k: K,
    known: Set<Option<V>>,
) -> int
    decreases n,
{
    if n > 0 && search::satisfied_within(clause, trail.take(n - 1), k, known) {
        earliest_within(clause, trail, n - 1, k, known)
    } else {
        n
    }
}

/// The clause rules out every selection of the root package at its version, as far as its shape
/// tells.
pub open spec fn is_final<K, V>(clause: Clause<K, V>, root: K, version: V) -> bool {
    clause.len() == 0 || (clause.len() == 1 && clause[0].0 == root && clause[0].1.contains(
        Some(version),
    ))
}

/// What a step says of its package on its own.
pub open spec fn known_by<K, V>(clauses: Seq<Clause<K, V>>, e: Entry<K, V>) -> Set<Option<V>> {
    match e.cause {
        None => e.set,
        Some(c) => if search::mentions(clauses[c], e.key) {
            search::at(clauses[c], e.key).complement()
        } else {
            Set::full()
        },
    }
}

/// What conflict resolution comes to with the terms that it has arrived at: the clauses, the trail,
/// and the clause that was the root cause; or nothing where there is no solution.
pub open spec fn resolved_from<K, V>(
    clauses: Seq<Clause<K, V>>,
    trail: Seq<Entry<K, V>>,
    c: int,
    root: K,
    version: V,
    terms: Clause<K, V>,
    n: int,
    changed: bool,
) -> Option<(Seq<Clause<K, V>>, Seq<Entry<K, V>>, int)>
    decreases n,
{
    let p = earliest(terms, trail, n);
    if is_final(terms, root, version) || p <= 0 || p > n {
        None
    } else {
        let last = trail[p - 1];
        let k = last.key;
        let m = earliest_within(terms, trail, p - 1, k, known_by(clauses, last));
        let low = search::level(trail.take(m));
        let high = search::level(trail.take(p));
        if low < high {
            let to = if low == 0 && high > 1 {
                1
            } else {
                low
            };
            let kept = progress::cut(trail, to);
            let all = if changed {
                clauses.push(terms)
            } else {
                clauses
            };
            let cause = if changed {
                clauses.len() as int
            } else {
                c
            };
            Some((all, kept.push(derived(all, kept, cause, k)), cause))
        } else {
            match last.cause {
                Some(d) => resolved_from(
                    clauses,
                    trail,
                    c,
                    root,
                    version,
                    resolvent(terms, clauses[d], k),
                    p - 1,
                    true,
                ),
                None => None,
            }
        }
    }
}

/// What conflict resolution comes to where the clause is satisfied.
pub open spec fn backjump<K, V>(
    clauses: Seq<Clause<K, V>>,
    trail: Seq<Entry<K, V>>,
    c: int,
    root: K,
    version: V,
) -> Option<(Seq<Clause<K, V>>, Seq<Entry<K, V>>, int)> {
    resolved_from(
        clauses,
        trail,
        c,
        root,
        version,
        clauses[c],
        trail.len() as int,
        false,
    )
}

/// Where propagation stands: the clauses and the trail, the packages that wait, the package that is
/// looked at, how many clauses are still to be looked at for it, the conflicts so far, and whether
/// there is no solution.
#[verifier::reject_recursive_types(V)]
pub struct Scan<K, V> {
    pub clauses: Seq<Clause<K, V>>,
    pub trail: Seq<Entry<K, V>>,
    pub waiting: Seq<K>,
    pub current: K,
    pub i: int,
    pub causes: Seq<(K, int)>,
    pub failed: bool,
}

/// Nothing is left to do.
pub open spec fn is_done<K, V>(s: Scan<K, V>) -> bool {
    s.failed || (s.i <= 0 && s.waiting.len() == 0)
}

/// The next thing that propagation does.
pub open spec fn scan_step<K, V>(root: K, version: V, s: Scan<K, V>) -> Scan<K, V> {
    if is_done(s) {
        s
    } else if s.i <= 0 {
        Scan {
            waiting: s.waiting.drop_last(),
            current: s.waiting.last(),
            i: s.clauses.len() as int,
            ..s
        }
    } else {
        let j = s.i - 1;
        let clause = s.clauses[j];
        if !search::mentions(clause, s.current) {
            Scan { i: j, ..s }
        } else {
            match standing(clause, s.trail) {
                Standing::Open => Scan { i: j, ..s },
                Standing::Calls(m) => {
                    let k = clause[m].0;
                    Scan {
                        trail: s.trail.push(derived(s.clauses, s.trail, j, k)),
                        waiting: if s.waiting.contains(k) {
                            s.waiting
                        } else {
                            s.waiting.push(k)
                        },
                        i: j,
                        ..s
                    }
                },
                Standing::Satisfied => match backjump(s.clauses, s.trail, j, root, version) {
                    None => Scan { failed: true, ..s },
                    Some((clauses, trail, cause)) => Scan {
                        clauses,
                        trail,
                        waiting: seq![trail.last().key],
                        i: 0,
                        causes: s.causes.push((trail.last().key, cause)),
                        ..s
                    },
                },
            }
        }
    }
}

/// Where propagation stands after so many steps.
pub open spec fn scanned<K, V>(root: K, version: V, s: Scan<K, V>, n: nat) -> Scan<K, V>
    decreases n,
{
    if n == 0 {
        s
    } else {
        scan_step(root, version, scanned(root, version, s, (n - 1) as nat))
    }
}

/// Propagation starts with the package.
pub open spec fn scan_of<K, V>(
    clauses: Seq<Clause<K, V>>,
    trail: Seq<Entry<K, V>>,
    next: K,
) -> Scan<K, V> {
    Scan {
        clauses,
        trail,
        waiting: seq![next],
        current: next,
        i: 0,
        causes: Seq::empty(),
        failed: false,
    }
}

/// Propagation ends there.
pub open spec fn scans_to<K, V>(root: K, version: V, s: Scan<K, V>, end: Scan<K, V>) -> bool {
    is_done(end) && exists|n: nat| #[trigger] scanned(root, version, s, n) == end
}

proof fn lemma_scan_rests<K, V>(root: K, version: V, s: Scan<K, V>, a: nat, b: nat)
    requires
        is_done(scanned(root, version, s, a)),
        a <= b,
    ensures
        scanned(root, version, s, b) == scanned(root, version, s, a),
    decreases b,
{
    if a < b {
        lemma_scan_rests(root, version, s, a, (b - 1) as nat);
    }
}

/// Propagation ends in one way.
pub proof fn lemma_scan_unique<K, V>(
    root: K,
    version: V,
    s: Scan<K, V>,
    a: Scan<K, V>,
    b: Scan<K, V>,
)
    requires
        scans_to(root, version, s, a),
        scans_to(root, version, s, b),
    ensures
        a == b,
{
    let m = choose|n: nat| #[trigger] scanned(root, version, s, n) == a;
    let n = choose|n: nat| #[trigger] scanned(root, version, s, n) == b;
    if m <= n {
        lemma_scan_rests(root, version, s, m, n);
    } else {
        lemma_scan_rests(root, version, s, n, m);
    }
}

/// The decided packages at their versions.
pub open spec fn selected<K, V>(trail: Seq<Entry<K, V>>) -> Map<K, V> {
    Map::new(
        |k: K| search::decided(trail, k),
        |k: K| choose|v: V| #[trigger] search::open_states(trail, k).contains(Some(v)),
    )
}

/// The decisions among the first steps, in turn.
pub open spec fn decided_in_turn<K, V>(trail: Seq<Entry<K, V>>, n: int) -> Seq<(K, V)>
    decreases n,
{
    if n <= 0 {
        Seq::empty()
    } else {
        let before = decided_in_turn(trail, n - 1);
        let step = trail[n - 1];
        if step.cause is None {
            before.push((step.key, choose|v: V| #[trigger] step.set.contains(Some(v))))
        } else {
            before
        }
    }
}

/// The decided packages at their versions, as they are listed.
pub open spec fn solution_list<K, V>(trail: Seq<Entry<K, V>>) -> Seq<(K, V)> {
    selected::last_of_each(decided_in_turn(trail, trail.len() as int), 0)
}

/// The versions that are left open for the package.
pub open spec fn open_versions<K, V>(trail: Seq<Entry<K, V>>, k: K) -> Set<V> {
    Set::new(|v: V| search::open_states(trail, k).contains(Some(v)))
}

/// The packages of the first steps that must be selected and are not decided, in the order in which
/// they come first.
pub open spec fn pending<K, V>(trail: Seq<Entry<K, V>>, n: int) -> Seq<K>
    decreases n,
{
    if n <= 0 {
        Seq::empty()
    } else {
        let before = pending(trail, n - 1);
        let k = trail[n - 1].key;
        if search::decided(trail, k) || search::open_states(trail, k).contains(None)
            || before.contains(k) {
            before
        } else {
            before.push(k)
        }
    }
}

/// A package of the first steps that must be selected and is not decided is pending.
pub proof fn lemma_pending<K, V>(trail: Seq<Entry<K, V>>, n: int, k: K)
    requires
        n == trail.len(),
        !search::decided(trail, k),
        !search::open_states(trail, k).contains(None),
    ensures
        pending(trail, n).contains(k),
{
    lemma_narrowed_somewhere(trail, k);
    let i = choose|i: int| 0 <= i < trail.len() && (#[trigger] trail[i]).key == k;
    lemma_pending_from(trail, i, n, k);
}

proof fn lemma_narrowed_somewhere<K, V>(trail: Seq<Entry<K, V>>, k: K)
    requires
        !search::open_states(trail, k).contains(None),
    ensures
        search::assigned(trail, k),
    decreases trail.len(),
{
    if trail.len() > 0 {
        if trail.last().key == k {
            assert(trail[trail.len() - 1].key == k);
        } else {
            let before = trail.drop_last();
            lemma_narrowed_somewhere(before, k);
            let i = choose|i: int| 0 <= i < before.len() && (#[trigger] before[i]).key == k;
            assert(trail[i].key == k);
        }
    }
}

proof fn lemma_pending_from<K, V>(trail: Seq<Entry<K, V>>, i: int, n: int, k: K)
    requires
        0 <= i < n <= trail.len(),
        trail[i].key == k,
        !search::decided(trail, k),
        !search::open_states(trail, k).contains(None),
    ensures
        pending(trail, n).contains(k),
    decreases n,
{
    let before = pending(trail, n - 1);
    if i < n - 1 {
        lemma_pending_from(trail, i, n - 1, k);
        let j = choose|j: int| 0 <= j < before.len() && before[j] == k;
        assert(pending(trail, n)[j] == k);
    } else if !before.contains(k) {
        assert(pending(trail, n)[before.len() as int] == k);
    }
}

/// The first one of the packages that stands above those before it, and that none of the later ones
/// stands above.
pub open spec fn leader<K>(higher: spec_fn(K, K) -> bool, list: Seq<K>, n: int) -> int
    decreases n,
{
    if n <= 1 {
        0
    } else {
        let best = leader(higher, list, n - 1);
        if higher(list[n - 1], list[best]) {
            n - 1
        } else {
            best
        }
    }
}

/// What there is to do next.
#[verifier::reject_recursive_types(V)]
pub enum Next<K, V> {
    /// Propagate the package.
    Propagate(K),
    /// Choose a version of the package in the set.
    Choose(K, Set<V>),
    /// Nothing.
    Nothing,
}

/// The first package, from `j` on, that may be in a state in which the clause does not hold, with the
/// versions of which this is true.
pub open spec fn way_out<K, V>(clause: Clause<K, V>, trail: Seq<Entry<K, V>>, j: int) -> (K, Set<V>)
    decreases clause.len() - j,
{
    if j >= clause.len() {
        arbitrary()
    } else {
        let (k, set) = clause[j];
        let open = search::open_states(trail, k);
        if open.subset_of(set) {
            way_out(clause, trail, j + 1)
        } else {
            (k, Set::new(|v: V| open.contains(Some(v)) && !set.contains(Some(v))))
        }
    }
}

/// What there is to do about the clauses from `i` on that are met with every other package absent,
/// given the last one before that calls for no step.
pub open spec fn unmet<K, V>(
    clauses: Seq<Clause<K, V>>,
    trail: Seq<Entry<K, V>>,
    i: int,
    open: Option<int>,
) -> Next<K, V>
    decreases clauses.len() - i,
{
    if i >= clauses.len() {
        match open {
            None => Next::Nothing,
            Some(o) => {
                let (k, set) = way_out(clauses[o], trail, 0);
                Next::Choose(k, set)
            },
        }
    } else if !search::violates(clauses[i], selected(trail)) {
        unmet(clauses, trail, i + 1, open)
    } else {
        match standing(clauses[i], trail) {
            Standing::Satisfied => Next::Propagate(clauses[i][0].0),
            Standing::Calls(m) => Next::Propagate(clauses[i][m].0),
            Standing::Open => unmet(clauses, trail, i + 1, Some(i)),
        }
    }
}

/// What there is to do next: to choose a version of a pending package that stands above the others,
/// the first such one of equal ones; or else what the clauses that are met ask for.
pub open spec fn next_of<K, V>(
    higher: spec_fn(K, K) -> bool,
    clauses: Seq<Clause<K, V>>,
    trail: Seq<Entry<K, V>>,
) -> Next<K, V> {
    let list = pending(trail, trail.len() as int);
    if list.len() == 0 {
        unmet(clauses, trail, 0, None)
    } else {
        let k = list[leader(higher, list, list.len() as int)];
        Next::Choose(k, open_versions(trail, k))
    }
}

/// What a solver holds: the clauses, the trail, the versions of which all was added, the package to
/// propagate next, how often packages were part of a conflict, and whether it ever went back.
#[verifier::reject_recursive_types(K)]
#[verifier::reject_recursive_types(V)]
pub struct Core<K, V> {
    pub clauses: Seq<Clause<K, V>>,
    pub trail: Seq<Entry<K, V>>,
    pub added: Seq<(K, V)>,
    pub next: K,
    pub counts: spec_fn(K) -> Counts,
    pub backtracked: bool,
}

/// What a new solver holds.
pub open spec fn at_first<K, V>(root: K, version: V) -> Core<K, V> {
    Core {
        clauses: seq![tidied(problem::root_clause(root, version))],
        trail: Seq::empty(),
        added: Seq::empty(),
        next: root,
        counts: |k: K| (0u32, 0u32, 0u32, 0u32),
        backtracked: false,
    }
}

/// What a solver holds that is to rule out the clause. Nothing changes where that would rule out
/// everything.
pub open spec fn ruling_out<K, V>(core: Core<K, V>, clause: Clause<K, V>) -> Core<K, V> {
    let tidy = tidied(clause);
    if tidy.len() == 0 {
        core
    } else {
        Core { clauses: core.clauses.push(tidy), next: tidy[0].0, ..core }
    }
}

/// What a solver holds that is to rule out the clauses in turn.
pub open spec fn ruling_out_all<K, V>(core: Core<K, V>, clauses: Seq<Clause<K, V>>) -> Core<K, V>
    decreases clauses.len(),
{
    if clauses.len() == 0 {
        core
    } else {
        ruling_out(ruling_out_all(core, clauses.drop_last()), clauses.last())
    }
}

/// How a run ends.
pub enum Outcome<K, V> {
    /// With a solution.
    Solved,
    /// With a proof that there is none.
    NoSolution,
    /// The provider cancelled it.
    Cancelled,
    /// The provider failed to choose a version of the package.
    FailedChoice(K),
    /// The provider failed to tell what the version depends on, or what it is incompatible with.
    FailedRetrieval(K, V),
    /// The caller's version ordering contradicts itself at the selected version.
    InvalidOrdering(K, V),
}

/// Where a run stands: what the solver holds, what was told of choices and decisions, and how the run
/// has ended.
#[verifier::reject_recursive_types(K)]
#[verifier::reject_recursive_types(V)]
pub struct Machine<K, V> {
    pub core: Core<K, V>,
    pub told: Seq<Observed<K, V>>,
    pub end: Option<Outcome<K, V>>,
}

/// The provider's answers depend on their arguments alone, and priorities can be compared.
pub open spec fn is_deterministic<DP: DependencyProvider>(dp: DP) -> bool {
    &&& priority::are_comparable::<DP::Priority>()
    &&& forall|a: Result<(), DP::Err>, b: Result<(), DP::Err>| #[trigger]
        call_ensures(DP::should_cancel, (&dp,), a) && #[trigger] call_ensures(
            DP::should_cancel,
            (&dp,),
            b,
        ) ==> (a is Ok <==> b is Ok)
    &&& forall|
        p: DP::P,
        q: DP::P,
        set: DP::VS,
        other: DP::VS,
        a: Result<Option<VersionOf<DP>>, DP::Err>,
        b: Result<Option<VersionOf<DP>>, DP::Err>,
    | #[trigger]
        call_ensures(DP::choose_version, (&dp, &p, &set), a) && #[trigger] call_ensures(
            DP::choose_version,
            (&dp, &q, &other),
            b,
        ) && p@ == q@ && set@ == other@ ==> {
            &&& a is Ok <==> b is Ok
            &&& a is Ok ==> a->Ok_0 == b->Ok_0
        }
    &&& forall|
        p: DP::P,
        q: DP::P,
        v: VersionOf<DP>,
        a: Result<Dependencies<DP::P, DP::VS, DP::M>, DP::Err>,
        b: Result<Dependencies<DP::P, DP::VS, DP::M>, DP::Err>,
    | #[trigger]
        call_ensures(DP::get_dependencies, (&dp, &p, &v), a) && #[trigger] call_ensures(
            DP::get_dependencies,
            (&dp, &q, &v),
            b,
        ) && p@ == q@ ==> (a is Ok <==> b is Ok)
    &&& forall|
        p: DP::P,
        q: DP::P,
        v: VersionOf<DP>,
        a: Result<IncompatibilityConstraints<DP::P, DP::VS, DP::M>, DP::Err>,
        b: Result<IncompatibilityConstraints<DP::P, DP::VS, DP::M>, DP::Err>,
    | #[trigger]
        call_ensures(DP::get_incompatibilities, (&dp, &p, &v), a) && #[trigger] call_ensures(
            DP::get_incompatibilities,
            (&dp, &q, &v),
            b,
        ) && p@ == q@ ==> (a is Ok <==> b is Ok)
}

/// The provider cancels the run.
pub open spec fn cancels<DP: DependencyProvider>(dp: DP) -> bool {
    exists|e: DP::Err| #[trigger] call_ensures(DP::should_cancel, (&dp,), Err(e))
}

/// The provider fails to choose a version of the package in the range.
pub open spec fn fails_choice<DP: DependencyProvider>(
    dp: DP,
    k: Key<DP>,
    range: Set<VersionOf<DP>>,
) -> bool {
    exists|p: DP::P, set: DP::VS, e: DP::Err|
        p@ == k && set@ == range && #[trigger] call_ensures(
            DP::choose_version,
            (&dp, &p, &set),
            Err(e),
        )
}

/// What the provider answers where it is to choose a version of the package in the range.
pub open spec fn answer<DP: DependencyProvider>(
    dp: DP,
    k: Key<DP>,
    range: Set<VersionOf<DP>>,
) -> Option<VersionOf<DP>> {
    choose|a: Option<VersionOf<DP>>| problem::may_answer(dp, k, range, a)
}

/// The provider fails to tell what the version depends on.
pub open spec fn fails_dependencies<DP: DependencyProvider>(
    dp: DP,
    k: Key<DP>,
    v: VersionOf<DP>,
) -> bool {
    exists|p: DP::P, e: DP::Err|
        p@ == k && #[trigger] call_ensures(DP::get_dependencies, (&dp, &p, &v), Err(e))
}

/// The provider fails to tell what the version is incompatible with.
pub open spec fn fails_incompatibilities<DP: DependencyProvider>(
    dp: DP,
    k: Key<DP>,
    v: VersionOf<DP>,
) -> bool {
    exists|p: DP::P, e: DP::Err|
        p@ == k && #[trigger] call_ensures(DP::get_incompatibilities, (&dp, &p, &v), Err(e))
}

/// The counts of a package after the conflicts of a propagation.
pub open spec fn after_causes<K, V>(
    counts: Counts,
    clauses: Seq<Clause<K, V>>,
    causes: Seq<(K, int)>,
    k: K,
) -> Counts
    decreases causes.len(),
{
    if causes.len() == 0 {
        counts
    } else {
        let (affected, c) = causes.last();
        tracker::after_conflict(
            after_causes(counts, clauses, causes.drop_last(), k),
            k == affected,
            search::mentions(clauses[c], k),
            true,
        )
    }
}

/// What the solver holds after the propagation.
pub open spec fn after_propagation<K, V>(core: Core<K, V>, end: Scan<K, V>) -> Core<K, V> {
    Core {
        clauses: end.clauses,
        trail: end.trail,
        counts: |k: K| after_causes((core.counts)(k), end.clauses, end.causes, k),
        backtracked: core.backtracked || end.causes.len() > 0,
        ..core
    }
}

/// How the propagation ends.
pub open spec fn propagated<K, V>(root: K, version: V, core: Core<K, V>) -> Scan<K, V> {
    let begin = scan_of(core.clauses, core.trail, core.next);
    choose|end: Scan<K, V>| scans_to(root, version, begin, end)
}

/// The one package has a higher priority than the other one, as things stand.
pub open spec fn stands_above<DP: DependencyProvider>(
    dp: DP,
    trail: Seq<Entry<Key<DP>, VersionOf<DP>>>,
    counts: spec_fn(Key<DP>) -> Counts,
) -> spec_fn(Key<DP>, Key<DP>) -> bool {
    |a: Key<DP>, b: Key<DP>|
        priority::is_higher(
            dp.priority(a, open_versions(trail, a), counts(a)),
            dp.priority(b, open_versions(trail, b), counts(b)),
        )
}

/// What the first requirements of the version state.
pub open spec fn requirement_clauses<K, V>(
    k: K,
    v: V,
    requirements: Seq<(K, Set<V>)>,
    n: int,
) -> Seq<Clause<K, V>> {
    Seq::new(
        n as nat,
        |i: int| tidied(problem::requirement_clause(k, v, requirements[i])),
    )
}

/// What the first conflicts of the version state.
pub open spec fn conflict_clauses<K, V>(
    k: K,
    v: V,
    conflicts: Seq<Clause<K, V>>,
    n: int,
) -> Seq<Clause<K, V>> {
    Seq::new(n as nat, |i: int| tidied(problem::conflict_clause(k, v, conflicts[i])))
}

/// One requirement more is stated.
pub proof fn lemma_requirement_clause<K, V>(
    clauses: Seq<Clause<K, V>>,
    k: K,
    v: V,
    requirements: Seq<(K, Set<V>)>,
    n: int,
)
    requires
        0 <= n < requirements.len(),
    ensures
        (clauses + requirement_clauses(k, v, requirements, n)).push(
            tidied(problem::requirement_clause(k, v, requirements[n])),
        ) == clauses + requirement_clauses(k, v, requirements, n + 1),
{
    assert((clauses + requirement_clauses(k, v, requirements, n)).push(
        tidied(problem::requirement_clause(k, v, requirements[n])),
    ) =~= clauses + requirement_clauses(k, v, requirements, n + 1));
}

/// One conflict more is stated.
pub proof fn lemma_conflict_clause<K, V>(
    clauses: Seq<Clause<K, V>>,
    k: K,
    v: V,
    conflicts: Seq<Clause<K, V>>,
    n: int,
)
    requires
        0 <= n < conflicts.len(),
    ensures
        (clauses + conflict_clauses(k, v, conflicts, n)).push(
            tidied(problem::conflict_clause(k, v, conflicts[n])),
        ) == clauses + conflict_clauses(k, v, conflicts, n + 1),
{
    assert((clauses + conflict_clauses(k, v, conflicts, n)).push(
        tidied(problem::conflict_clause(k, v, conflicts[n])),
    ) =~= clauses + conflict_clauses(k, v, conflicts, n + 1));
}

/// The clauses with all that the provider states of the version.
pub open spec fn with_version<DP: DependencyProvider>(
    dp: DP,
    clauses: Seq<Clause<Key<DP>, VersionOf<DP>>>,
    k: Key<DP>,
    v: VersionOf<DP>,
) -> Seq<Clause<Key<DP>, VersionOf<DP>>> {
    let requirements = dp.requirements(k, v)->0;
    let conflicts = dp.conflicts(k, v);
    clauses + requirement_clauses(k, v, requirements, requirements.len() as int)
        + conflict_clauses(k, v, conflicts, conflicts.len() as int)
}

/// What the solver holds with all that the provider states of the version.
pub open spec fn holding<DP: DependencyProvider>(
    dp: DP,
    core: Core<Key<DP>, VersionOf<DP>>,
    k: Key<DP>,
    v: VersionOf<DP>,
) -> Core<Key<DP>, VersionOf<DP>> {
    Core {
        clauses: with_version(dp, core.clauses, k, v),
        added: core.added.push((k, v)),
        ..core
    }
}

/// The first clause from the place on that speaks against the version.
pub open spec fn objection<K, V>(
    clauses: Seq<Clause<K, V>>,
    trail: Seq<Entry<K, V>>,
    i: int,
    k: K,
    v: V,
) -> Option<int>
    decreases clauses.len() - i,
{
    if i >= clauses.len() {
        None
    } else if search::satisfied_given(clauses[i], trail, k, Some(v)) {
        Some(i)
    } else {
        objection(clauses, trail, i + 1, k, v)
    }
}

/// The step that decides on the version.
pub open spec fn decision<K, V>(trail: Seq<Entry<K, V>>, k: K, v: V) -> Entry<K, V> {
    Entry { key: k, set: term::only(v), cause: None, level: search::level(trail) + 1 }
}

/// The version is decided on.
pub open spec fn decided<K, V>(
    core: Core<K, V>,
    told: Seq<Observed<K, V>>,
    k: K,
    v: V,
) -> Machine<K, V> {
    let level = search::level(core.trail) + 1;
    Machine {
        core: Core { trail: core.trail.push(decision(core.trail, k, v)), ..core },
        told: told.push(Observed::Decision(k, v, observer::level_told(level))),
        end: None,
    }
}

/// What becomes of the version that was chosen.
pub open spec fn version_step<DP: DependencyProvider>(
    dp: DP,
    core: Core<Key<DP>, VersionOf<DP>>,
    told: Seq<Observed<Key<DP>, VersionOf<DP>>>,
    k: Key<DP>,
    v: VersionOf<DP>,
) -> Machine<Key<DP>, VersionOf<DP>> {
    if core.added.contains((k, v)) {
        decided(core, told, k, v)
    } else if fails_dependencies(dp, k, v) {
        Machine { core, told, end: Some(Outcome::FailedRetrieval(k, v)) }
    } else if dp.requirements(k, v) is None {
        Machine {
            core: Core {
                clauses: core.clauses.push(tidied(problem::owner_clause(k, v))),
                added: core.added.push((k, v)),
                ..core
            },
            told,
            end: None,
        }
    } else if fails_incompatibilities(dp, k, v) {
        Machine { core, told, end: Some(Outcome::FailedRetrieval(k, v)) }
    } else {
        let more = holding(dp, core, k, v);
        let against = objection(more.clauses, more.trail, core.clauses.len() as int, k, v);
        if core.backtracked && against is Some {
            let c = against->0;
            Machine {
                core: Core {
                    counts: |q: Key<DP>|
                        tracker::after_conflict(
                            (core.counts)(q),
                            q == k,
                            search::mentions(more.clauses[c], q),
                            false,
                        ),
                    ..more
                },
                told,
                end: None,
            }
        } else {
            decided(more, told, k, v)
        }
    }
}

/// What happens after a propagation.
pub open spec fn choice_step<DP: DependencyProvider>(
    dp: DP,
    core: Core<Key<DP>, VersionOf<DP>>,
    told: Seq<Observed<Key<DP>, VersionOf<DP>>>,
) -> Machine<Key<DP>, VersionOf<DP>> {
    match next_of(stands_above(dp, core.trail, core.counts), core.clauses, core.trail) {
        Next::Nothing => Machine { core, told, end: Some(Outcome::Solved) },
        Next::Propagate(k) => Machine { core: Core { next: k, ..core }, told, end: None },
        Next::Choose(k, range) => {
            let asking = Core { next: k, ..core };
            let asked = told.push(Observed::PackageChoice(k, range));
            if fails_choice(dp, k, range) {
                Machine { core: asking, told: asked, end: Some(Outcome::FailedChoice(k)) }
            } else {
                match answer(dp, k, range) {
                    None => Machine {
                        core: Core {
                            clauses: core.clauses.push(seq![(k, term::selected_in(range))]),
                            ..asking
                        },
                        told: asked.push(Observed::NoVersion(k, range)),
                        end: None,
                    },
                    Some(v) => version_step(
                        dp,
                        asking,
                        asked.push(Observed::VersionChoice(k, v, range)),
                        k,
                        v,
                    ),
                }
            }
        },
    }
}

/// The next thing that a run does.
pub open spec fn run_step<DP: DependencyProvider>(
    dp: DP,
    root: Key<DP>,
    version: VersionOf<DP>,
    m: Machine<Key<DP>, VersionOf<DP>>,
) -> Machine<Key<DP>, VersionOf<DP>> {
    let end = propagated(root, version, m.core);
    if m.end is Some {
        m
    } else if cancels(dp) {
        Machine { end: Some(Outcome::Cancelled), ..m }
    } else if end.failed {
        Machine {
            core: Core { clauses: end.clauses, trail: end.trail, ..m.core },
            end: Some(Outcome::NoSolution),
            ..m
        }
    } else {
        choice_step(dp, after_propagation(m.core, end), m.told)
    }
}

/// Where a run stands after so many steps.
pub open spec fn ran<DP: DependencyProvider>(
    dp: DP,
    root: Key<DP>,
    version: VersionOf<DP>,
    m: Machine<Key<DP>, VersionOf<DP>>,
    n: nat,
) -> Machine<Key<DP>, VersionOf<DP>>
    decreases n,
{
    if n == 0 {
        m
    } else {
        run_step(dp, root, version, ran(dp, root, version, m, (n - 1) as nat))
    }
}

/// The run starts with what the solver holds, and ends there.
pub open spec fn runs_to<DP: DependencyProvider>(
    dp: DP,
    root: Key<DP>,
    version: VersionOf<DP>,
    core: Core<Key<DP>, VersionOf<DP>>,
    end: Machine<Key<DP>, VersionOf<DP>>,
) -> bool {
    let begin = Machine { core, told: Seq::empty(), end: None };
    end.end is Some && exists|n: nat| #[trigger] ran(dp, root, version, begin, n) == end
}

proof fn lemma_run_rests<DP: DependencyProvider>(
    dp: DP,
    root: Key<DP>,
    version: VersionOf<DP>,
    m: Machine<Key<DP>, VersionOf<DP>>,
    a: nat,
    b: nat,
)
    requires
        ran(dp, root, version, m, a).end is Some,
        a <= b,
    ensures
        ran(dp, root, version, m, b) == ran(dp, root, version, m, a),
    decreases b,
{
    if a < b {
        lemma_run_rests(dp, root, version, m, a, (b - 1) as nat);
    }
}

/// A run ends in one way: with the same outcome, after the same choices and decisions, and with the
/// same in the hands of the solver.
pub proof fn run_ends_in_one_way<DP: DependencyProvider>(
    dp: DP,
    root: Key<DP>,
    version: VersionOf<DP>,
    core: Core<Key<DP>, VersionOf<DP>>,
    a: Machine<Key<DP>, VersionOf<DP>>,
    b: Machine<Key<DP>, VersionOf<DP>>,
)
    requires
        runs_to(dp, root, version, core, a),
        runs_to(dp, root, version, core, b),
    ensures
        a == b,
{
    let begin = Machine { core, told: Seq::empty(), end: None };
    let m = choose|n: nat| #[trigger] ran(dp, root, version, begin, n) == a;
    let n = choose|n: nat| #[trigger] ran(dp, root, version, begin, n) == b;
    if m <= n {
        lemma_run_rests(dp, root, version, begin, m, n);
    } else {
        lemma_run_rests(dp, root, version, begin, n, m);
    }
}

/// How a run ends.
pub open spec fn run_of<DP: DependencyProvider>(
    dp: DP,
    root: Key<DP>,
    version: VersionOf<DP>,
    core: Core<Key<DP>, VersionOf<DP>>,
) -> Machine<Key<DP>, VersionOf<DP>> {
    choose|end: Machine<Key<DP>, VersionOf<DP>>| runs_to(dp, root, version, core, end)
}

pub proof fn lemma_run_of<DP: DependencyProvider>(
    dp: DP,
    root: Key<DP>,
    version: VersionOf<DP>,
    core: Core<Key<DP>, VersionOf<DP>>,
    end: Machine<Key<DP>, VersionOf<DP>>,
)
    requires
        runs_to(dp, root, version, core, end),
    ensures
        run_of(dp, root, version, core) == end,
{
    run_ends_in_one_way(dp, root, version, core, end, run_of(dp, root, version, core));
}

/// A run that starts with what the solver holds comes to stand there, where the provider is
/// deterministic.
#[verifier::opaque]
pub open spec fn comes_to<DP: DependencyProvider>(
    dp: DP,
    root: Key<DP>,
    version: VersionOf<DP>,
    core: Core<Key<DP>, VersionOf<DP>>,
    m: Machine<Key<DP>, VersionOf<DP>>,
) -> bool {
    let begin = Machine { core, told: Seq::empty(), end: None };
    is_deterministic(dp) ==> exists|n: nat| #[trigger] ran(dp, root, version, begin, n) == m
}

pub proof fn lemma_begins<DP: DependencyProvider>(
    dp: DP,
    root: Key<DP>,
    version: VersionOf<DP>,
    core: Core<Key<DP>, VersionOf<DP>>,
    told: Seq<Observed<Key<DP>, VersionOf<DP>>>,
)
    requires
        told.len() == 0,
    ensures
        comes_to(dp, root, version, core, Machine { core, told, end: None }),
{
    reveal(comes_to);
    assert(told =~= Seq::empty());
    let begin = Machine { core, told, end: None };
    assert(ran(dp, root, version, begin, 0) == begin);
}

proof fn lemma_goes_on<DP: DependencyProvider>(
    dp: DP,
    root: Key<DP>,
    version: VersionOf<DP>,
    core: Core<Key<DP>, VersionOf<DP>>,
    m: Machine<Key<DP>, VersionOf<DP>>,
    after: Machine<Key<DP>, VersionOf<DP>>,
)
    requires
        comes_to(dp, root, version, core, m),
        is_deterministic(dp) ==> run_step(dp, root, version, m) == after,
    ensures
        comes_to(dp, root, version, core, after),
{
    reveal(comes_to);
    if is_deterministic(dp) {
        let begin = Machine { core, told: Seq::empty(), end: None };
        let n = choose|n: nat| #[trigger] ran(dp, root, version, begin, n) == m;
        assert(ran(dp, root, version, begin, n + 1) == after);
    }
}

/// The provider cancels the run.
pub proof fn lemma_goes_cancelled<DP: DependencyProvider>(
    dp: DP,
    root: Key<DP>,
    version: VersionOf<DP>,
    start: Core<Key<DP>, VersionOf<DP>>,
    core: Core<Key<DP>, VersionOf<DP>>,
    told: Seq<Observed<Key<DP>, VersionOf<DP>>>,
    source: DP::Err,
)
    requires
        comes_to(dp, root, version, start, Machine { core, told, end: None }),
        call_ensures(DP::should_cancel, (&dp,), Err(source)),
    ensures
        comes_to(dp, root, version, start, Machine { core, told, end: Some(Outcome::Cancelled) }),
{
    let m = Machine { core, told, end: None };
    lemma_goes_on(
        dp,
        root,
        version,
        start,
        m,
        Machine { core, told, end: Some(Outcome::Cancelled) },
    );
}

proof fn lemma_propagated<K, V>(root: K, version: V, core: Core<K, V>, end: Scan<K, V>)
    requires
        scans_to(root, version, scan_of(core.clauses, core.trail, core.next), end),
    ensures
        propagated(root, version, core) == end,
{
    let begin = scan_of(core.clauses, core.trail, core.next);
    lemma_scan_unique(root, version, begin, propagated(root, version, core), end);
}

/// The propagation fails.
pub proof fn lemma_goes_failed<DP: DependencyProvider>(
    dp: DP,
    root: Key<DP>,
    version: VersionOf<DP>,
    start: Core<Key<DP>, VersionOf<DP>>,
    core: Core<Key<DP>, VersionOf<DP>>,
    told: Seq<Observed<Key<DP>, VersionOf<DP>>>,
    end: Scan<Key<DP>, VersionOf<DP>>,
)
    requires
        comes_to(dp, root, version, start, Machine { core, told, end: None }),
        call_ensures(DP::should_cancel, (&dp,), Ok(())),
        scans_to(root, version, scan_of(core.clauses, core.trail, core.next), end),
        end.failed,
    ensures
        comes_to(
            dp,
            root,
            version,
            start,
            Machine {
                core: Core { clauses: end.clauses, trail: end.trail, ..core },
                told,
                end: Some(Outcome::NoSolution),
            },
        ),
{
    let m = Machine { core, told, end: None };
    lemma_propagated(root, version, core, end);
    let after = Machine {
        core: Core { clauses: end.clauses, trail: end.trail, ..core },
        told,
        end: Some(Outcome::NoSolution),
    };
    lemma_goes_on(dp, root, version, start, m, after);
}

/// The propagation succeeds.
pub proof fn lemma_goes_propagated<DP: DependencyProvider>(
    dp: DP,
    root: Key<DP>,
    version: VersionOf<DP>,
    start: Core<Key<DP>, VersionOf<DP>>,
    core: Core<Key<DP>, VersionOf<DP>>,
    told: Seq<Observed<Key<DP>, VersionOf<DP>>>,
    end: Scan<Key<DP>, VersionOf<DP>>,
)
    requires
        comes_to(dp, root, version, start, Machine { core, told, end: None }),
        call_ensures(DP::should_cancel, (&dp,), Ok(())),
        scans_to(root, version, scan_of(core.clauses, core.trail, core.next), end),
        !end.failed,
    ensures
        comes_to(
            dp,
            root,
            version,
            start,
            choice_step(dp, after_propagation(core, end), told),
        ),
{
    let m = Machine { core, told, end: None };
    lemma_propagated(root, version, core, end);
    lemma_goes_on(
        dp,
        root,
        version,
        start,
        m,
        choice_step(dp, after_propagation(core, end), told),
    );
}

/// What comes next, where priorities can be compared.
pub open spec fn comes_next<DP: DependencyProvider>(
    dp: DP,
    core: Core<Key<DP>, VersionOf<DP>>,
    next: Next<Key<DP>, VersionOf<DP>>,
) -> bool {
    priority::are_comparable::<DP::Priority>() ==> next_of(
        stands_above(dp, core.trail, core.counts),
        core.clauses,
        core.trail,
    ) == next
}

/// The provider fails to choose.
pub proof fn lemma_fails_choice<DP: DependencyProvider>(
    dp: DP,
    core: Core<Key<DP>, VersionOf<DP>>,
    told: Seq<Observed<Key<DP>, VersionOf<DP>>>,
    p: DP::P,
    set: DP::VS,
    source: DP::Err,
)
    requires
        is_deterministic(dp),
        comes_next(dp, core, Next::Choose(p@, set@)),
        call_ensures(DP::choose_version, (&dp, &p, &set), Err(source)),
    ensures
        choice_step(dp, core, told) == (Machine {
            core: Core { next: p@, ..core },
            told: told.push(Observed::PackageChoice(p@, set@)),
            end: Some(Outcome::FailedChoice(p@)),
        }),
{
    assert(fails_choice(dp, p@, set@));
}

/// The provider answers.
pub proof fn lemma_answers<DP: DependencyProvider>(
    dp: DP,
    p: DP::P,
    set: DP::VS,
    given: Option<VersionOf<DP>>,
)
    requires
        is_deterministic(dp),
        call_ensures(DP::choose_version, (&dp, &p, &set), Ok(given)),
    ensures
        !fails_choice(dp, p@, set@),
        answer(dp, p@, set@) == given,
{
    let ok = Ok::<Option<VersionOf<DP>>, DP::Err>(given);
    if fails_choice(dp, p@, set@) {
        let (q, other, e) = choose|q: DP::P, other: DP::VS, e: DP::Err|
            q@ == p@ && other@ == set@ && #[trigger] call_ensures(
                DP::choose_version,
                (&dp, &q, &other),
                Err(e),
            );
        let err = Err::<Option<VersionOf<DP>>, DP::Err>(e);
        assert(call_ensures(DP::choose_version, (&dp, &p, &set), ok));
        assert(call_ensures(DP::choose_version, (&dp, &q, &other), err));
        assert(err is Ok);
    }
    assert(problem::may_answer(dp, p@, set@, given));
    let a = answer(dp, p@, set@);
    assert(problem::may_answer(dp, p@, set@, a));
    let (q, other) = choose|q: DP::P, other: DP::VS|
        q@ == p@ && other@ == set@ && #[trigger] call_ensures(
            DP::choose_version,
            (&dp, &q, &other),
            Ok(a),
        );
    let also = Ok::<Option<VersionOf<DP>>, DP::Err>(a);
    assert(call_ensures(DP::choose_version, (&dp, &p, &set), ok));
    assert(call_ensures(DP::choose_version, (&dp, &q, &other), also));
    assert(ok->Ok_0 == also->Ok_0);
}

/// The provider tells what the version depends on.
pub proof fn lemma_tells_dependencies<DP: DependencyProvider>(
    dp: DP,
    p: DP::P,
    v: VersionOf<DP>,
    given: Dependencies<DP::P, DP::VS, DP::M>,
)
    requires
        is_deterministic(dp),
        call_ensures(DP::get_dependencies, (&dp, &p, &v), Ok(given)),
    ensures
        !fails_dependencies(dp, p@, v),
{
    let ok = Ok::<Dependencies<DP::P, DP::VS, DP::M>, DP::Err>(given);
    if fails_dependencies(dp, p@, v) {
        let (q, e) = choose|q: DP::P, e: DP::Err|
            q@ == p@ && #[trigger] call_ensures(DP::get_dependencies, (&dp, &q, &v), Err(e));
        let err = Err::<Dependencies<DP::P, DP::VS, DP::M>, DP::Err>(e);
        assert(call_ensures(DP::get_dependencies, (&dp, &p, &v), ok));
        assert(call_ensures(DP::get_dependencies, (&dp, &q, &v), err));
        assert(err is Ok);
    }
}

/// The provider tells what the version is incompatible with.
pub proof fn lemma_tells_incompatibilities<DP: DependencyProvider>(
    dp: DP,
    p: DP::P,
    v: VersionOf<DP>,
    given: IncompatibilityConstraints<DP::P, DP::VS, DP::M>,
)
    requires
        is_deterministic(dp),
        call_ensures(DP::get_incompatibilities, (&dp, &p, &v), Ok(given)),
    ensures
        !fails_incompatibilities(dp, p@, v),
{
    let ok = Ok::<IncompatibilityConstraints<DP::P, DP::VS, DP::M>, DP::Err>(given);
    if fails_incompatibilities(dp, p@, v) {
        let (q, e) = choose|q: DP::P, e: DP::Err|
            q@ == p@ && #[trigger] call_ensures(
                DP::get_incompatibilities,
                (&dp, &q, &v),
                Err(e),
            );
        let err = Err::<IncompatibilityConstraints<DP::P, DP::VS, DP::M>, DP::Err>(e);
        assert(call_ensures(DP::get_incompatibilities, (&dp, &p, &v), ok));
        assert(call_ensures(DP::get_incompatibilities, (&dp, &q, &v), err));
        assert(err is Ok);
    }
}

/// What was told of choices and decisions, from `start` on.
pub open spec fn choices_told<K, V>(start: int, log: Seq<Observed<K, V>>) -> Seq<Observed<K, V>>
    decreases log.len(),
{
    if log.len() <= start || log.len() == 0 {
        Seq::empty()
    } else {
        let earlier = choices_told(start, log.drop_last());
        if observer::holds_tree(log.last()) {
            earlier
        } else {
            earlier.push(log.last())
        }
    }
}

/// One event more is told.
pub proof fn lemma_choice_told<K, V>(start: int, log: Seq<Observed<K, V>>, o: Observed<K, V>)
    requires
        0 <= start <= log.len(),
        !observer::holds_tree(o),
    ensures
        choices_told(start, log.push(o)) == choices_told(start, log).push(o),
{
    assert(log.push(o).drop_last() =~= log);
}

/// What is told is told in turn.
pub proof fn lemma_choices_chain<K, V>(
    start: int,
    b: Seq<Observed<K, V>>,
    c: Seq<Observed<K, V>>,
)
    requires
        0 <= start <= b.len(),
        b.is_prefix_of(c),
    ensures
        choices_told(start, c) == choices_told(start, b) + choices_told(b.len() as int, c),
    decreases c.len(),
{
    if c.len() == b.len() {
        assert(c =~= b);
        assert(choices_told(start, b) + Seq::empty() =~= choices_told(start, b));
    } else {
        let shorter = c.drop_last();
        assert(b =~= shorter.subrange(0, b.len() as int)) by {
            assert forall|i: int| 0 <= i < b.len() implies b[i] == shorter[i] by {
                assert(b[i] == c.subrange(0, b.len() as int)[i]);
            }
        }
        lemma_choices_chain(start, b, shorter);
        let told = choices_told(start, b);
        let more = choices_told(b.len() as int, shorter);
        assert(told + more.push(c.last()) =~= (told + more).push(c.last()));
    }
}

/// Events that hold trees do not matter.
pub proof fn lemma_choices_told<K, V>(
    start: int,
    b: Seq<Observed<K, V>>,
    c: Seq<Observed<K, V>>,
)
    requires
        0 <= start <= b.len(),
        b.is_prefix_of(c),
        forall|i: int| b.len() <= i < c.len() ==> observer::holds_tree(#[trigger] c[i]),
    ensures
        choices_told(start, c) == choices_told(start, b),
    decreases c.len(),
{
    if c.len() == b.len() {
        assert(c =~= b);
    } else {
        let shorter = c.drop_last();
        assert(b =~= shorter.subrange(0, b.len() as int)) by {
            assert forall|i: int| 0 <= i < b.len() implies b[i] == shorter[i] by {
                assert(b[i] == c.subrange(0, b.len() as int)[i]);
            }
        }
        assert forall|i: int| b.len() <= i < shorter.len() implies observer::holds_tree(
            #[trigger] shorter[i],
        ) by {
            assert(shorter[i] == c[i]);
        }
        lemma_choices_told(start, b, shorter);
        assert(observer::holds_tree(c[c.len() - 1]));
    }
}

} // verus!
