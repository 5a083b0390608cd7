//! The steps of a solver run, as an observer can retrace them from what it is told.

use vstd::prelude::*;

use crate::machine;
use crate::observer;
use crate::observer::{Cause, Observed};
use crate::progress;
use crate::search;
use crate::search::{Clause, Entry};

verus! {

/// One step: what is left open for a package after it, whether it is a decision, and the number of
/// decisions up to it.
#[verifier::reject_recursive_types(V)]
pub struct Step<K, V> {
    pub key: K,
    pub set: Set<Option<V>>,
    pub decided: bool,
    pub level: int,
}

/// The number of decisions among the steps.
pub open spec fn height<K, V>(steps: Seq<Step<K, V>>) -> int {
    if steps.len() == 0 {
        0
    } else {
        steps.last().level
    }
}

/// The steps up to the level.
pub open spec fn cut<K, V>(steps: Seq<Step<K, V>>, level: int) -> Seq<Step<K, V>>
    decreases steps.len(),
{
    if steps.len() > 0 && steps.last().level > level {
        cut(steps.drop_last(), level)
    } else {
        steps
    }
}

/// Some step is about the package.
pub open spec fn is_assigned<K, V>(steps: Seq<Step<K, V>>, k: K) -> bool {
    exists|i: int| 0 <= i < steps.len() && (#[trigger] steps[i]).key == k
}

/// One of the steps is a decision for the package.
pub open spec fn is_decided<K, V>(steps: Seq<Step<K, V>>, k: K) -> bool {
    exists|i: int| 0 <= i < steps.len() && (#[trigger] steps[i]).key == k && steps[i].decided
}

/// The states that the steps leave open for the package.
pub open spec fn open_states<K, V>(steps: Seq<Step<K, V>>, k: K) -> Set<Option<V>>
    decreases steps.len(),
{
    if steps.len() == 0 {
        Set::full()
    } else if steps.last().key == k {
        steps.last().set
    } else {
        open_states(steps.drop_last(), k)
    }
}

/// The package must be selected, and is not decided.
pub open spec fn is_pending<K, V>(steps: Seq<Step<K, V>>, k: K) -> bool {
    !is_decided(steps, k) && !open_states(steps, k).contains(None)
}

/// The pending packages among those of the first steps, in the order in which they come first.
pub open spec fn pending_in_turn<K, V>(steps: Seq<Step<K, V>>, n: int) -> Seq<K>
    decreases n,
{
    if n <= 0 {
        Seq::empty()
    } else {
        let before = pending_in_turn(steps, n - 1);
        let k = steps[n - 1].key;
        if is_pending(steps, k) && !before.contains(k) {
            before.push(k)
        } else {
            before
        }
    }
}

/// The versions that the steps leave open for the package.
pub open spec fn open_versions<K, V>(steps: Seq<Step<K, V>>, k: K) -> Set<V> {
    Set::new(|v: V| open_states(steps, k).contains(Some(v)))
}

/// The selection has every package in a state that the steps leave open.
pub open spec fn fits<K, V>(steps: Seq<Step<K, V>>, s: Map<K, V>) -> bool {
    forall|k: K| #[trigger] open_states(steps, k).contains(s.get(k))
}

/// The steps after the event.
pub open spec fn next_steps<K, V>(steps: Seq<Step<K, V>>, o: Observed<K, V>) -> Seq<Step<K, V>> {
    match o {
        Observed::Decision(k, v, _) => steps.push(
            Step { key: k, set: set![Some(v)], decided: true, level: height(steps) + 1 },
        ),
        Observed::Derivation(k, _, current, _) => steps.push(
            Step { key: k, set: current, decided: false, level: height(steps) },
        ),
        Observed::Backtrack(_, to_level, _) => cut(steps, to_level as int),
        _ => steps,
    }
}

/// The steps at the end of the log, given those at its place `start`.
pub open spec fn retraced<K, V>(
    steps: Seq<Step<K, V>>,
    start: int,
    log: Seq<Observed<K, V>>,
) -> Seq<Step<K, V>>
    decreases log.len(),
{
    if log.len() <= start || log.len() == 0 {
        steps
    } else {
        next_steps(retraced(steps, start, log.drop_last()), log.last())
    }
}

/// The event is what can happen after the steps.
///
/// A package is chosen that is not decided, within what is left open for it; where the problem is
/// `plain`, the package must be selected, and all that is left open is allowed. A version is decided
/// on that is left open. A derivation tells what was left open before and leaves less, though not
/// nothing, and its cause rules out whatever it takes away as long as the steps stand. The cause of a
/// conflict, or of going back, rules out everything that fits the steps.
pub open spec fn can_happen<K, V>(plain: bool, steps: Seq<Step<K, V>>, o: Observed<K, V>) -> bool {
    match o {
        Observed::PackageChoice(k, allowed) => {
            &&& !is_decided(steps, k)
            &&& forall|v: V| #[trigger]
                allowed.contains(v) ==> open_states(steps, k).contains(Some(v))
            &&& plain ==> {
                &&& !open_states(steps, k).contains(None)
                &&& forall|v: V| #[trigger]
                    open_states(steps, k).contains(Some(v)) ==> allowed.contains(v)
            }
        },
        Observed::Decision(k, v, level) => {
            &&& !is_decided(steps, k)
            &&& open_states(steps, k).contains(Some(v))
            &&& level == observer::level_told(height(steps) + 1)
        },
        Observed::Derivation(k, previous, current, cause) => {
            &&& previous == if is_assigned(steps, k) {
                Some(open_states(steps, k))
            } else {
                None
            }
            &&& current.subset_of(open_states(steps, k))
            &&& exists|x: Option<V>| open_states(steps, k).contains(x) && !#[trigger] current.contains(x)
            &&& exists|x: Option<V>| #[trigger] current.contains(x)
            &&& cause.packages.contains(k)
            &&& forall|s: Map<K, V>| #[trigger]
                fits(steps, s) && !current.contains(s.get(k)) ==> cause.refuted.contains(s)
        },
        Observed::Conflict(cause) => forall|s: Map<K, V>| #[trigger]
            fits(steps, s) ==> cause.refuted.contains(s),
        Observed::Backtrack(from_level, _, cause) => {
            &&& from_level == observer::level_told(height(steps))
            &&& forall|s: Map<K, V>| #[trigger] fits(steps, s) ==> cause.refuted.contains(s)
        },
        _ => true,
    }
}

/// The last step is a decision, without which the cause does not rule out everything that fits.
pub open spec fn hinges_on_decision<K, V>(steps: Seq<Step<K, V>>, cause: Cause<K, V>) -> bool {
    &&& steps.len() > 0
    &&& steps.last().decided
    &&& exists|s: Map<K, V>| #[trigger] fits(steps.drop_last(), s) && !cause.refuted.contains(s)
}

/// The event is what can come next after the last one. Going back follows a conflict, for the same
/// cause where that hinges on a decision; and a derivation from the same cause follows.
pub open spec fn can_follow<K, V>(
    steps: Seq<Step<K, V>>,
    last: Observed<K, V>,
    o: Observed<K, V>,
) -> bool {
    &&& o is Backtrack ==> {
        &&& last is Conflict
        &&& hinges_on_decision(steps, observer::cause_of(last)) ==> observer::cause_of(o)
            == observer::cause_of(last)
    }
    &&& last is Backtrack ==> o is Derivation && observer::cause_of(o) == observer::cause_of(last)
}

/// Every event of the log from `start` on is what can happen after the steps before it, and follow
/// the event before it.
pub open spec fn is_possible<K, V>(
    plain: bool,
    steps: Seq<Step<K, V>>,
    start: int,
    log: Seq<Observed<K, V>>,
) -> bool {
    forall|i: int|
        start <= i < log.len() ==> {
            let before = retraced(steps, start, log.take(i));
            &&& can_happen(plain, before, #[trigger] log[i])
            &&& if i > start {
                can_follow(before, log[i - 1], log[i])
            } else {
                !(log[i] is Backtrack)
            }
        }
}

/// The events lead from the first steps to the other ones, where their levels can be told apart.
#[verifier::opaque]
pub open spec fn leads<K, V>(
    plain: bool,
    from: Seq<Step<K, V>>,
    to: Seq<Step<K, V>>,
    before: Seq<Observed<K, V>>,
    after: Seq<Observed<K, V>>,
) -> bool {
    observer::levels_fit(before.len() as int, after) ==> {
        &&& to == retraced(from, before.len() as int, after)
        &&& is_possible(plain, from, before.len() as int, after)
    }
}

/// The steps that the trail is made of.
pub open spec fn steps_of<K, V>(trail: Seq<Entry<K, V>>) -> Seq<Step<K, V>> {
    Seq::new(
        trail.len(),
        |i: int|
            Step {
                key: trail[i].key,
                set: trail[i].set,
                decided: trail[i].cause is None,
                level: trail[i].level,
            },
    )
}

pub proof fn lemma_pending_in_turn<K, V>(trail: Seq<Entry<K, V>>, n: int)
    requires
        n <= trail.len(),
    ensures
        pending_in_turn(steps_of(trail), n) == machine::pending(trail, n),
    decreases n,
{
    if n > 0 {
        lemma_pending_in_turn(trail, n - 1);
        lemma_steps_of(trail, trail[n - 1].key);
    }
}

pub proof fn lemma_steps_of<K, V>(trail: Seq<Entry<K, V>>, k: K)
    ensures
        open_states(steps_of(trail), k) == search::open_states(trail, k),
        is_assigned(steps_of(trail), k) == search::assigned(trail, k),
        is_decided(steps_of(trail), k) == search::decided(trail, k),
        height(steps_of(trail)) == search::level(trail),
    decreases trail.len(),
{
    let steps = steps_of(trail);
    if trail.len() > 0 {
        assert(steps.drop_last() =~= steps_of(trail.drop_last()));
        lemma_steps_of(trail.drop_last(), k);
    }
    if search::assigned(trail, k) {
        let i = choose|i: int| 0 <= i < trail.len() && (#[trigger] trail[i]).key == k;
        assert(steps[i].key == k);
    }
    if is_assigned(steps, k) {
        let i = choose|i: int| 0 <= i < steps.len() && (#[trigger] steps[i]).key == k;
        assert(trail[i].key == k);
    }
    if search::decided(trail, k) {
        let i = choose|i: int|
            0 <= i < trail.len() && (#[trigger] trail[i]).key == k && trail[i].cause is None;
        assert(steps[i].key == k);
    }
    if is_decided(steps, k) {
        let i = choose|i: int|
            0 <= i < steps.len() && (#[trigger] steps[i]).key == k && steps[i].decided;
        assert(trail[i].key == k);
    }
}

pub proof fn lemma_steps_cut<K, V>(trail: Seq<Entry<K, V>>, level: int)
    ensures
        steps_of(progress::cut(trail, level)) == cut(steps_of(trail), level),
    decreases trail.len(),
{
    let steps = steps_of(trail);
    if trail.len() > 0 {
        assert(steps.drop_last() =~= steps_of(trail.drop_last()));
        assert(steps.last().level == trail.last().level);
        lemma_steps_cut(trail.drop_last(), level);
    }
}

/// Where a clause is satisfied, whatever fits violates it.
pub proof fn lemma_satisfied_violates<K, V>(
    clause: Clause<K, V>,
    trail: Seq<Entry<K, V>>,
    s: Map<K, V>,
)
    requires
        search::satisfied(clause, trail),
        fits(steps_of(trail), s),
    ensures
        search::violates(clause, s),
{
    assert forall|i: int| 0 <= i < clause.len() implies (#[trigger] clause[i]).1.contains(
        s.get(clause[i].0),
    ) by {
        lemma_steps_of(trail, clause[i].0);
        assert(open_states(steps_of(trail), clause[i].0).contains(s.get(clause[i].0)));
    }
}

/// Where a clause is satisfied but for one package, whatever fits and has that package in a state
/// that the clause is about violates it.
pub proof fn lemma_step_violates<K, V>(
    clause: Clause<K, V>,
    trail: Seq<Entry<K, V>>,
    k: K,
    s: Map<K, V>,
)
    requires
        search::distinct(clause),
        search::satisfied_except(clause, trail, k),
        fits(steps_of(trail), s),
        search::at(clause, k).contains(s.get(k)),
    ensures
        search::violates(clause, s),
{
    assert forall|i: int| 0 <= i < clause.len() implies (#[trigger] clause[i]).1.contains(
        s.get(clause[i].0),
    ) by {
        if clause[i].0 == k {
            search::lemma_at(clause, i);
        } else {
            lemma_steps_of(trail, clause[i].0);
            assert(open_states(steps_of(trail), clause[i].0).contains(s.get(clause[i].0)));
        }
    }
}

/// Where nothing is told, nothing changes.
pub proof fn lemma_leads_nowhere<K, V>(
    plain: bool,
    steps: Seq<Step<K, V>>,
    log: Seq<Observed<K, V>>,
)
    ensures
        leads(plain, steps, steps, log, log),
{
    reveal(leads);
}

/// One event more.
pub proof fn lemma_leads_push<K, V>(
    plain: bool,
    from: Seq<Step<K, V>>,
    to: Seq<Step<K, V>>,
    before: Seq<Observed<K, V>>,
    after: Seq<Observed<K, V>>,
    o: Observed<K, V>,
    next: Seq<Step<K, V>>,
)
    requires
        leads(plain, from, to, before, after),
        before.len() <= after.len(),
        can_happen(plain, to, o),
        if after.len() > before.len() {
            can_follow(to, after.last(), o)
        } else {
            !(o is Backtrack)
        },
        (o is Backtrack ==> o->Backtrack_0 < u32::MAX) ==> next == next_steps(to, o),
    ensures
        leads(plain, from, next, before, after.push(o)),
{
    reveal(leads);
    let start = before.len() as int;
    let longer = after.push(o);
    assert(longer.drop_last() =~= after);
    if observer::levels_fit(start, longer) {
        assert(observer::levels_fit(start, after)) by {
            assert forall|i: int| start <= i < after.len() && (#[trigger] after[i]) is Backtrack implies
                after[i]->Backtrack_0 < u32::MAX by {
                assert(longer[i] == after[i]);
            }
        }
        assert(o is Backtrack ==> o->Backtrack_0 < u32::MAX) by {
            assert(longer[after.len() as int] == o);
        }
        assert forall|i: int| start <= i < longer.len() implies {
            let earlier = retraced(from, start, longer.take(i));
            &&& can_happen(plain, earlier, #[trigger] longer[i])
            &&& if i > start {
                can_follow(earlier, longer[i - 1], longer[i])
            } else {
                !(longer[i] is Backtrack)
            }
        } by {
            assert(longer.take(i) =~= after.take(i));
            if i > start {
                assert(longer[i - 1] == after[i - 1]);
            }
            if i < after.len() {
                assert(longer[i] == after[i]);
            } else {
                assert(after.take(i) =~= after);
            }
        }
    }
}

proof fn lemma_retraced_chain<K, V>(
    steps: Seq<Step<K, V>>,
    start: int,
    b: Seq<Observed<K, V>>,
    c: Seq<Observed<K, V>>,
)
    requires
        0 <= start <= b.len(),
        b.is_prefix_of(c),
    ensures
        retraced(steps, start, c) == retraced(retraced(steps, start, b), b.len() as int, c),
    decreases c.len(),
{
    if c.len() == b.len() {
        assert(c =~= b);
    } else {
        let shorter = c.drop_last();
        assert(b =~= shorter.subrange(0, b.len() as int)) by {
            assert forall|i: int| 0 <= i < b.len() implies b[i] == shorter[i] by {
                assert(b[i] == c.subrange(0, b.len() as int)[i]);
            }
        }
        lemma_retraced_chain(steps, start, b, shorter);
    }
}

/// One part of the log after the other.
pub proof fn lemma_leads_chain<K, V>(
    plain: bool,
    from: Seq<Step<K, V>>,
    middle: Seq<Step<K, V>>,
    to: Seq<Step<K, V>>,
    a: Seq<Observed<K, V>>,
    b: Seq<Observed<K, V>>,
    c: Seq<Observed<K, V>>,
)
    requires
        leads(plain, from, middle, a, b),
        leads(plain, middle, to, b, c),
        a.is_prefix_of(b),
        b.is_prefix_of(c),
        observer::has_settled(a, b),
    ensures
        leads(plain, from, to, a, c),
{
    reveal(leads);
    let start = a.len() as int;
    if observer::levels_fit(start, c) {
        assert forall|i: int| 0 <= i < b.len() implies b[i] == c[i] by {
            assert(b[i] == c.subrange(0, b.len() as int)[i]);
        }
        assert(observer::levels_fit(start, b)) by {
            assert forall|i: int| start <= i < b.len() && (#[trigger] b[i]) is Backtrack implies
                b[i]->Backtrack_0 < u32::MAX by {
                assert(c[i] == b[i]);
            }
        }
        lemma_retraced_chain(from, start, b, c);
        assert forall|i: int| start <= i < c.len() implies {
            let earlier = retraced(from, start, c.take(i));
            &&& can_happen(plain, earlier, #[trigger] c[i])
            &&& if i > start {
                can_follow(earlier, c[i - 1], c[i])
            } else {
                !(c[i] is Backtrack)
            }
        } by {
            if i > start && i <= b.len() {
                assert(c[i - 1] == b[i - 1]);
            }
            if i < b.len() {
                assert(c.take(i) =~= b.take(i));
                assert(b[i] == c[i]);
            } else {
                assert(b =~= c.take(i).subrange(0, b.len() as int));
                lemma_retraced_chain(from, start, b, c.take(i));
            }
        }
    }
}

} // verus!
