//! The order in which combinations of preferences are tried.

use vstd::prelude::*;

use crate::error::PubGrubError;
use crate::front;
use crate::observer;
use crate::observer::{MaximalityProbeResult, Observed};
use crate::package::Package;
use crate::preference::PackagePreference;
use crate::problem::{Key, VersionOf};
use crate::provider::DependencyProvider;
use crate::run;
use crate::version_set::VersionSet;

verus! {

/// A search for a solution that preserves a combination of preferences.
pub struct Attempt {
    /// The preferences to preserve.
    pub kept: Seq<bool>,
    /// The preference that was given up to get there, if any.
    pub given_up: Option<int>,
    /// How the search went.
    pub result: MaximalityProbeResult,
    /// The preferences whose packages the proof of a failure blames.
    pub blamed: Seq<bool>,
}

/// The combination that preserves each one of so many preferences.
pub open spec fn everything(n: nat) -> Seq<bool> {
    Seq::new(n, |i: int| true)
}

/// The combinations without one of the blamed preferences from `from` on, each with the preference
/// that is given up; the first such preference comes last.
pub open spec fn fewer(kept: Seq<bool>, blamed: Seq<bool>, from: int) -> Seq<
    (Seq<bool>, Option<int>),
>
    decreases kept.len() - from,
{
    if from >= kept.len() {
        Seq::empty()
    } else if kept[from] && blamed[from] {
        fewer(kept, blamed, from + 1).push((kept.update(from, false), Some(from)))
    } else {
        fewer(kept, blamed, from + 1)
    }
}

/// The combination lies within one that some solution was found to preserve.
pub open spec fn is_found(attempts: Seq<Attempt>, kept: Seq<bool>) -> bool {
    exists|j: int|
        0 <= j < attempts.len() && (#[trigger] attempts[j]).result is Improved && front::includes(
            attempts[j].kept,
            kept,
        )
}

/// The combination was tried.
pub open spec fn is_tried(attempts: Seq<Attempt>, kept: Seq<bool>) -> bool {
    exists|j: int| 0 <= j < attempts.len() && (#[trigger] attempts[j]).kept == kept
}

/// The combination was tried, or lies within one that was found.
pub open spec fn is_settled(attempts: Seq<Attempt>, kept: Seq<bool>) -> bool {
    is_tried(attempts, kept) || is_found(attempts, kept)
}

/// The list up to the last combination in it that is not settled.
pub open spec fn unsettled(
    list: Seq<(Seq<bool>, Option<int>)>,
    attempts: Seq<Attempt>,
) -> Seq<(Seq<bool>, Option<int>)>
    decreases list.len(),
{
    if list.len() > 0 && is_settled(attempts, list.last().0) {
        unsettled(list.drop_last(), attempts)
    } else {
        list
    }
}

/// What is left to try of the combinations of so many preferences after the attempts, with the next
/// one last: at first the combination of all of them; and after a failure, before anything else, the
/// combinations without one of the blamed preferences, in the order of the preferences.
pub open spec fn left_to_try(n: nat, attempts: Seq<Attempt>) -> Seq<(Seq<bool>, Option<int>)>
    decreases attempts.len(),
{
    if attempts.len() == 0 {
        seq![(everything(n), None)]
    } else {
        let earlier = attempts.drop_last();
        let tried = attempts.last();
        let rest = unsettled(left_to_try(n, earlier), earlier).drop_last();
        if tried.result is NoImprovement {
            rest + fewer(tried.kept, tried.blamed, 0)
        } else {
            rest
        }
    }
}

/// The combinations that are still to be tried after the attempts, with the next one last.
pub open spec fn to_try(n: nat, attempts: Seq<Attempt>) -> Seq<(Seq<bool>, Option<int>)> {
    unsettled(left_to_try(n, attempts), attempts)
}

/// The attempt is the one that is due after those before it.
pub open spec fn is_due(n: nat, attempts: Seq<Attempt>, j: int) -> bool {
    let list = to_try(n, attempts.take(j));
    list.len() > 0 && list.last() == (attempts[j].kept, attempts[j].given_up)
}

/// The preferences whose packages occur among the terms that the proof rests on and that force
/// preferences.
pub open spec fn blamed_by<DP: DependencyProvider>(
    preferences: Seq<PackagePreference<DP::P, DP::VS>>,
    proof_of_failure: PubGrubError<DP>,
) -> Seq<bool> {
    Seq::new(
        preferences.len(),
        |i: int| proof_of_failure->NoSolution_0.forces(preferences[i].key()),
    )
}

/// There is a proof that no solution preserves the combination, and the blamed preferences are those
/// that it blames.
pub open spec fn are_blamed<DP: DependencyProvider>(
    dp: DP,
    root: Key<DP>,
    version: VersionOf<DP>,
    preferences: Seq<PackagePreference<DP::P, DP::VS>>,
    kept: Seq<bool>,
    blamed: Seq<bool>,
) -> bool {
    exists|failure: PubGrubError<DP>| #[trigger]
        failure.proves_no_solution(
            dp,
            root,
            version,
            run::forced_clauses(root, version, front::demands_for(preferences, kept)),
        ) && blamed == blamed_by(preferences, failure)
}

/// A preference that is kept in the one combination, and blamed, is given up in the other one.
pub open spec fn gives_way(kept: Seq<bool>, blamed: Seq<bool>, less: Seq<bool>) -> bool {
    exists|i: int| 0 <= i < kept.len() && #[trigger] kept[i] && blamed[i] && !less[i]
}

/// The attempt goes as the solutions have it: it succeeds only where some solution preserves the
/// combination, and fails only where none does. Then a proof blames some of the preferences, and
/// whatever part of the combination a solution does preserve is without one of those.
pub open spec fn goes_right<DP: DependencyProvider>(
    dp: DP,
    root: Key<DP>,
    version: VersionOf<DP>,
    preferences: Seq<PackagePreference<DP::P, DP::VS>>,
    attempt: Attempt,
) -> bool {
    &&& attempt.kept.len() == preferences.len()
    &&& match attempt.result {
        MaximalityProbeResult::Improved => front::achievable(
            dp,
            root,
            version,
            preferences,
            attempt.kept,
        ),
        MaximalityProbeResult::NoImprovement => {
            &&& !front::achievable(dp, root, version, preferences, attempt.kept)
            &&& are_blamed(dp, root, version, preferences, attempt.kept, attempt.blamed)
            &&& forall|less: Seq<bool>| #[trigger]
                front::achievable(dp, root, version, preferences, less) && front::includes(
                    attempt.kept,
                    less,
                ) ==> gives_way(attempt.kept, attempt.blamed, less)
        },
        MaximalityProbeResult::Error => true,
    }
}

/// Attempts at combinations of the preferences: each is the one that is due, and goes as the
/// solutions have it; an error can only be the last thing.
pub open spec fn are_attempts<DP: DependencyProvider>(
    dp: DP,
    root: Key<DP>,
    version: VersionOf<DP>,
    preferences: Seq<PackagePreference<DP::P, DP::VS>>,
    attempts: Seq<Attempt>,
) -> bool {
    forall|j: int|
        0 <= j < attempts.len() ==> {
            &&& #[trigger] is_due(preferences.len(), attempts, j)
            &&& goes_right(dp, root, version, preferences, attempts[j])
            &&& attempts[j].result is Error ==> j == attempts.len() - 1
        }
}

/// The package of the preference that is given up in the attempt.
pub open spec fn given_up_in<P: Package, VS: VersionSet>(
    preferences: Seq<PackagePreference<P, VS>>,
    attempt: Attempt,
) -> Option<P::V> {
    match attempt.given_up {
        Some(i) => Some(preferences[i].key()),
        None => None,
    }
}

/// What an observer is told of the attempts.
pub open spec fn attempts_told<DP: DependencyProvider>(
    preferences: Seq<PackagePreference<DP::P, DP::VS>>,
    attempts: Seq<Attempt>,
) -> Seq<Observed<Key<DP>, VersionOf<DP>>>
    decreases attempts.len(),
{
    if attempts.len() == 0 {
        Seq::empty()
    } else {
        attempts_told::<DP>(preferences, attempts.drop_last()) + front::attempt_told::<DP>(
            observer::run_number(attempts.len() as int),
            given_up_in(preferences, attempts.last()),
            attempts.last().result,
        )
    }
}

/// The result without what was found.
pub open spec fn outcome<DP: DependencyProvider, T>(r: Result<T, PubGrubError<DP>>) -> Result<
    (),
    PubGrubError<DP>,
> {
    match r {
        Ok(_) => Ok(()),
        Err(error) => Err(error),
    }
}

/// The attempts lead to the result, and the log has grown by what is told of them. An error ends
/// them. Otherwise nothing is left to try; and the result is a success where one of them has
/// succeeded. Where there are preferences and none of them has, one more run without any of them
/// gives the result.
pub open spec fn lead_to<DP: DependencyProvider>(
    preferences: Seq<PackagePreference<DP::P, DP::VS>>,
    attempts: Seq<Attempt>,
    before: Seq<Observed<Key<DP>, VersionOf<DP>>>,
    after: Seq<Observed<Key<DP>, VersionOf<DP>>>,
    r: Result<(), PubGrubError<DP>>,
) -> bool {
    let told = before + attempts_told::<DP>(preferences, attempts);
    if attempts.len() > 0 && attempts.last().result is Error {
        &&& r is Err
        &&& !(r->Err_0 is NoSolution)
        &&& after == told
    } else {
        &&& attempts.len() > 0
        &&& to_try(preferences.len(), attempts).len() == 0
        &&& r is Ok <==> exists|j: int|
            0 <= j < attempts.len() && (#[trigger] attempts[j]).result is Improved
        &&& after == if r is Ok || preferences.len() == 0 {
            told
        } else {
            told + front::attempt_told::<DP>(
                observer::run_number(attempts.len() as int + 1),
                None,
                front::probe_result(r),
            )
        }
    }
}

/// The log has grown by what is told of the search for the combinations that solutions preserve.
pub open spec fn tells_each<DP: DependencyProvider>(
    dp: DP,
    root: Key<DP>,
    version: VersionOf<DP>,
    preferences: Seq<PackagePreference<DP::P, DP::VS>>,
    before: Seq<Observed<Key<DP>, VersionOf<DP>>>,
    after: Seq<Observed<Key<DP>, VersionOf<DP>>>,
    r: Result<(), PubGrubError<DP>>,
) -> bool {
    exists|attempts: Seq<Attempt>| #[trigger]
        are_attempts(dp, root, version, preferences, attempts) && lead_to::<DP>(
            preferences,
            attempts,
            before,
            after,
            r,
        )
}

proof fn lemma_unsettled(list: Seq<(Seq<bool>, Option<int>)>, attempts: Seq<Attempt>)
    ensures
        unsettled(list, attempts).is_prefix_of(list),
        unsettled(list, attempts).len() > 0 ==> !is_settled(
            attempts,
            unsettled(list, attempts).last().0,
        ),
    decreases list.len(),
{
    if list.len() > 0 && is_settled(attempts, list.last().0) {
        lemma_unsettled(list.drop_last(), attempts);
        let rest = unsettled(list, attempts);
        assert(rest =~= list.subrange(0, rest.len() as int)) by {
            assert forall|i: int| 0 <= i < rest.len() implies rest[i] == list[i] by {
                assert(rest[i] == list.drop_last().subrange(0, rest.len() as int)[i]);
            }
        }
    } else {
        assert(list =~= list.subrange(0, list.len() as int));
    }
}

proof fn lemma_fewer(kept: Seq<bool>, blamed: Seq<bool>, from: int, m: int)
    requires
        0 <= from,
        0 <= m < fewer(kept, blamed, from).len(),
    ensures
        ({
            let (less, given_up) = fewer(kept, blamed, from)[m];
            &&& given_up is Some
            &&& from <= given_up->0 < kept.len()
            &&& kept[given_up->0]
            &&& blamed[given_up->0]
            &&& less == kept.update(given_up->0, false)
        }),
    decreases kept.len() - from,
{
    let rest = fewer(kept, blamed, from + 1);
    if m < rest.len() {
        lemma_fewer(kept, blamed, from + 1, m);
        assert(fewer(kept, blamed, from)[m] == rest[m]);
    }
}

/// An attempt at the combination that stands last, of those in the list that are not settled.
pub proof fn lemma_due(
    n: nat,
    attempts: Seq<Attempt>,
    list: Seq<(Seq<bool>, Option<int>)>,
    tried: Attempt,
)
    requires
        unsettled(list, attempts) == to_try(n, attempts),
        list.len() > 0,
        list.last() == (tried.kept, tried.given_up),
        !is_settled(attempts, tried.kept),
    ensures
        is_due(n, attempts.push(tried), attempts.len() as int),
        left_to_try(n, attempts.push(tried)) == if tried.result is NoImprovement {
            list.drop_last() + fewer(tried.kept, tried.blamed, 0)
        } else {
            list.drop_last()
        },
{
    let all = attempts.push(tried);
    assert(all.take(attempts.len() as int) =~= attempts);
    assert(all.drop_last() =~= attempts);
}

/// One attempt more.
pub proof fn lemma_attempts_push<DP: DependencyProvider>(
    dp: DP,
    root: Key<DP>,
    version: VersionOf<DP>,
    preferences: Seq<PackagePreference<DP::P, DP::VS>>,
    attempts: Seq<Attempt>,
    tried: Attempt,
)
    requires
        are_attempts(dp, root, version, preferences, attempts),
        forall|j: int| 0 <= j < attempts.len() ==> !((#[trigger] attempts[j]).result is Error),
        is_due(preferences.len(), attempts.push(tried), attempts.len() as int),
        goes_right(dp, root, version, preferences, tried),
    ensures
        are_attempts(dp, root, version, preferences, attempts.push(tried)),
        attempts_told::<DP>(preferences, attempts.push(tried)) == attempts_told::<DP>(
            preferences,
            attempts,
        ) + front::attempt_told::<DP>(
            observer::run_number(attempts.len() as int + 1),
            given_up_in(preferences, tried),
            tried.result,
        ),
{
    let n = preferences.len();
    let all = attempts.push(tried);
    assert(all.drop_last() =~= attempts);
    assert forall|j: int| 0 <= j < all.len() implies {
        &&& #[trigger] is_due(n, all, j)
        &&& goes_right(dp, root, version, preferences, all[j])
        &&& all[j].result is Error ==> j == all.len() - 1
    } by {
        if j < attempts.len() {
            assert(is_due(n, attempts, j));
            assert(all.take(j) =~= attempts.take(j));
            assert(all[j] == attempts[j]);
        }
    }
}

/// The attempt gives up one more preference than an earlier one that has failed: one that is kept
/// there, and blamed.
pub open spec fn follows_failure(attempts: Seq<Attempt>, kept: Seq<bool>, given_up: int) -> bool {
    exists|q: int|
        0 <= q < attempts.len() && (#[trigger] attempts[q]).result is NoImprovement && 0 <= given_up
            < attempts[q].kept.len() && attempts[q].kept[given_up] && attempts[q].blamed[given_up]
            && kept == attempts[q].kept.update(given_up, false)
}

proof fn lemma_left_to_try(n: nat, attempts: Seq<Attempt>, m: int)
    requires
        forall|j: int| 0 <= j < attempts.len() ==> #[trigger] is_due(n, attempts, j),
        0 <= m < left_to_try(n, attempts).len(),
    ensures
        ({
            let (kept, given_up) = left_to_try(n, attempts)[m];
            match given_up {
                Some(i) => follows_failure(attempts, kept, i),
                None => kept == everything(n) && attempts.len() == 0,
            }
        }),
    decreases attempts.len(),
{
    if attempts.len() > 0 {
        let earlier = attempts.drop_last();
        let tried = attempts.last();
        let all = left_to_try(n, earlier);
        let open = unsettled(all, earlier);
        let rest = open.drop_last();
        let (kept, given_up) = left_to_try(n, attempts)[m];
        lemma_unsettled(all, earlier);
        assert(open.len() > 0) by {
            assert(is_due(n, attempts, attempts.len() - 1));
            assert(attempts.take(attempts.len() - 1) =~= earlier);
        }
        if m < rest.len() {
            assert forall|j: int| 0 <= j < earlier.len() implies #[trigger] is_due(n, earlier, j) by {
                assert(is_due(n, attempts, j));
                assert(attempts.take(j) =~= earlier.take(j));
            }
            assert(rest[m] == all.subrange(0, open.len() as int)[m]);
            assert(rest[m] == all[m]);
            lemma_left_to_try(n, earlier, m);
            if given_up is None {
                assert(all.len() == 1);
            } else {
                let i = given_up->0;
                let q = choose|q: int|
                    0 <= q < earlier.len() && (#[trigger] earlier[q]).result is NoImprovement && 0
                        <= i < earlier[q].kept.len() && earlier[q].kept[i] && earlier[q].blamed[i]
                        && kept == earlier[q].kept.update(i, false);
                assert(attempts[q] == earlier[q]);
            }
        } else {
            lemma_fewer(tried.kept, tried.blamed, 0, m - rest.len());
            assert(attempts[attempts.len() - 1] == tried);
        }
    }
}

/// The first attempt is at all of the preferences. Every later one gives up one more preference than
/// an earlier one that has failed, one that is blamed there; and it is told under that preference.
pub proof fn attempt_gives_up_one_more<DP: DependencyProvider>(
    dp: DP,
    root: Key<DP>,
    version: VersionOf<DP>,
    preferences: Seq<PackagePreference<DP::P, DP::VS>>,
    attempts: Seq<Attempt>,
    j: int,
)
    requires
        are_attempts(dp, root, version, preferences, attempts),
        0 <= j < attempts.len(),
    ensures
        j == 0 ==> attempts[j].kept == everything(preferences.len()) && attempts[j].given_up is None,
        j > 0 ==> attempts[j].given_up is Some && follows_failure(
            attempts.take(j),
            attempts[j].kept,
            attempts[j].given_up->0,
        ),
{
    let n = preferences.len();
    let earlier = attempts.take(j);
    let all = left_to_try(n, earlier);
    let open = unsettled(all, earlier);
    assert(is_due(n, attempts, j));
    lemma_unsettled(all, earlier);
    let m = open.len() - 1;
    assert forall|q: int| 0 <= q < earlier.len() implies #[trigger] is_due(n, earlier, q) by {
        assert(is_due(n, attempts, q));
        assert(attempts.take(q) =~= earlier.take(q));
    }
    assert(open[m] == all.subrange(0, open.len() as int)[m]);
    assert(open[m] == all[m]);
    lemma_left_to_try(n, earlier, m);
    if j == 0 {
        assert(attempts[j].given_up is None) by {
            assert(all[m] == (everything(n), None::<int>));
        }
    }
}

/// No combination is tried twice, nor one that lies within a combination that was found before: a
/// preference is not tried again while what is preserved only grows.
pub proof fn settled_combination_is_not_tried<DP: DependencyProvider>(
    dp: DP,
    root: Key<DP>,
    version: VersionOf<DP>,
    preferences: Seq<PackagePreference<DP::P, DP::VS>>,
    attempts: Seq<Attempt>,
    i: int,
    j: int,
)
    requires
        are_attempts(dp, root, version, preferences, attempts),
        0 <= i < j < attempts.len(),
    ensures
        attempts[i].kept != attempts[j].kept,
        attempts[i].result is Improved ==> !front::includes(attempts[i].kept, attempts[j].kept),
{
    let n = preferences.len();
    let earlier = attempts.take(j);
    assert(is_due(n, attempts, j));
    lemma_unsettled(left_to_try(n, earlier), earlier);
    assert(earlier[i] == attempts[i]);
}

/// Where all preferences but one are found to be preserved together, that one is not given up again.
pub proof fn single_loss_is_given_up_once<DP: DependencyProvider>(
    dp: DP,
    root: Key<DP>,
    version: VersionOf<DP>,
    preferences: Seq<PackagePreference<DP::P, DP::VS>>,
    attempts: Seq<Attempt>,
    lost: int,
    i: int,
    j: int,
)
    requires
        are_attempts(dp, root, version, preferences, attempts),
        0 <= i < j < attempts.len(),
        0 <= lost < preferences.len(),
        attempts[i].result is Improved,
        attempts[i].kept == everything(preferences.len()).update(lost, false),
    ensures
        attempts[j].given_up != Some(lost),
{
    settled_combination_is_not_tried(dp, root, version, preferences, attempts, i, j);
    if attempts[j].given_up == Some(lost) {
        attempt_gives_up_one_more(dp, root, version, preferences, attempts, j);
        let earlier = attempts.take(j);
        let kept = attempts[j].kept;
        let q = choose|q: int|
            0 <= q < earlier.len() && (#[trigger] earlier[q]).result is NoImprovement && 0 <= lost
                < earlier[q].kept.len() && earlier[q].kept[lost] && earlier[q].blamed[lost] && kept
                == earlier[q].kept.update(lost, false);
        assert(earlier[q] == attempts[q]);
        assert(is_due(preferences.len(), attempts, q));
        assert(kept.len() == preferences.len());
        assert(front::includes(attempts[i].kept, kept));
    }
}

/// Where it is enough to give up the first preference, that is what is tried next after all of them
/// together, with success, and it is not given up again.
pub proof fn sufficient_loss_is_tried_once<DP: DependencyProvider>(
    dp: DP,
    root: Key<DP>,
    version: VersionOf<DP>,
    preferences: Seq<PackagePreference<DP::P, DP::VS>>,
    attempts: Seq<Attempt>,
)
    requires
        preferences.len() > 0,
        are_attempts(dp, root, version, preferences, attempts),
        attempts.len() > 0,
        !(attempts.last().result is Error),
        to_try(preferences.len(), attempts).len() == 0,
        !front::achievable(dp, root, version, preferences, everything(preferences.len())),
        front::achievable(
            dp,
            root,
            version,
            preferences,
            everything(preferences.len()).update(0, false),
        ),
    ensures
        attempts.len() > 1,
        attempts[1].given_up == Some(0int),
        attempts[1].kept == everything(preferences.len()).update(0, false),
        attempts[1].result is Improved,
        forall|j: int|
            0 <= j < attempts.len() && j != 1 ==> (#[trigger] attempts[j]).given_up != Some(0int),
{
    let n = preferences.len();
    let all = everything(n);
    let less = all.update(0, false);
    let first = attempts[0];
    let start = attempts.take(1);
    assert(is_due(n, attempts, 0));
    assert(attempts.take(0) =~= Seq::empty());
    attempt_gives_up_one_more(dp, root, version, preferences, attempts, 0);
    assert(first.result is Error ==> attempts.len() == 1);
    assert(first.result is NoImprovement);
    assert(front::includes(all, less));
    assert(gives_way(first.kept, first.blamed, less));
    let i = choose|i: int|
        0 <= i < first.kept.len() && #[trigger] first.kept[i] && first.blamed[i] && !less[i];
    assert(i == 0);
    assert(start.drop_last() =~= attempts.take(0));
    assert(start.last() == first);
    let list = left_to_try(n, start);
    assert(list.last() == (less, Some(0int)));
    assert(less[0] != all[0]);
    assert(!is_settled(start, less)) by {
        if is_tried(start, less) {
            let j = choose|j: int| 0 <= j < start.len() && (#[trigger] start[j]).kept == less;
            assert(start[j] == first);
        }
        if is_found(start, less) {
            let j = choose|j: int|
                0 <= j < start.len() && (#[trigger] start[j]).result is Improved
                    && front::includes(start[j].kept, less);
            assert(start[j] == first);
        }
    }
    assert(to_try(n, start) == list);
    if attempts.len() == 1 {
        assert(start =~= attempts);
    }
    assert(is_due(n, attempts, 1));
    assert(attempts[1].result is Error ==> attempts.len() == 2);
    assert(attempts[1].result is Improved);
    assert forall|j: int| 0 <= j < attempts.len() && j != 1 implies (
    #[trigger] attempts[j]).given_up != Some(0int) by {
        if j > 1 {
            single_loss_is_given_up_once(dp, root, version, preferences, attempts, 0, 1, j);
        }
    }
}

/// One for every time that a preference about the package was given up.
pub open spec fn given_up_weight<K, V>(k: K) -> spec_fn(Observed<K, V>) -> int {
    |o: Observed<K, V>|
        match o {
            Observed::PreferenceProbeStarted(other) => if other == k {
                1
            } else {
                0
            },
            _ => 0,
        }
}

proof fn lemma_total_push<K, V>(
    log: Seq<Observed<K, V>>,
    o: Observed<K, V>,
    weight: spec_fn(Observed<K, V>) -> int,
)
    ensures
        observer::total(log.push(o), weight) == observer::total(log, weight) + weight(o),
{
    assert(log.push(o).drop_last() =~= log);
}

/// How often a log tells that the preference was given up after the attempts.
proof fn lemma_given_up<DP: DependencyProvider>(
    preferences: Seq<PackagePreference<DP::P, DP::VS>>,
    attempts: Seq<Attempt>,
    before: Seq<Observed<Key<DP>, VersionOf<DP>>>,
    k: Key<DP>,
)
    ensures
        ({
            let weight = given_up_weight(k);
            let told = before + attempts_told::<DP>(preferences, attempts);
            let earlier = before + attempts_told::<DP>(preferences, attempts.drop_last());
            attempts.len() > 0 ==> observer::total(told, weight) == observer::total(
                earlier,
                weight,
            ) + if given_up_in(preferences, attempts.last()) == Some(k) {
                1int
            } else {
                0int
            }
        }),
{
    if attempts.len() > 0 {
        let weight = given_up_weight::<Key<DP>, VersionOf<DP>>(k);
        let run = observer::run_number(attempts.len() as int);
        let last = attempts.last();
        let given_up = given_up_in(preferences, last);
        let earlier = before + attempts_told::<DP>(preferences, attempts.drop_last());
        let told = before + attempts_told::<DP>(preferences, attempts);
        let more = front::attempt_told::<DP>(run, given_up, last.result);
        let one = earlier.push(more[0]);
        let two = one.push(more[1]);
        lemma_total_push(earlier, more[0], weight);
        lemma_total_push(one, more[1], weight);
        if given_up is Some {
            let three = two.push(more[2]);
            lemma_total_push(two, more[2], weight);
            lemma_total_push(three, more[3], weight);
            assert(told =~= three.push(more[3]));
        } else {
            assert(told =~= two);
        }
    }
}

proof fn lemma_given_up_once<DP: DependencyProvider>(
    preferences: Seq<PackagePreference<DP::P, DP::VS>>,
    attempts: Seq<Attempt>,
    before: Seq<Observed<Key<DP>, VersionOf<DP>>>,
    k: Key<DP>,
)
    requires
        forall|j: int|
            0 <= j < attempts.len() ==> (given_up_in(preferences, #[trigger] attempts[j]) == Some(k)
                <==> j == 1),
    ensures
        observer::total(before + attempts_told::<DP>(preferences, attempts), given_up_weight(k))
            == observer::total(before, given_up_weight(k)) + if attempts.len() > 1 {
            1int
        } else {
            0int
        },
    decreases attempts.len(),
{
    if attempts.len() == 0 {
        assert(before + attempts_told::<DP>(preferences, attempts) =~= before);
    } else {
        let shorter = attempts.drop_last();
        assert forall|j: int| 0 <= j < shorter.len() implies (given_up_in(
            preferences,
            #[trigger] shorter[j],
        ) == Some(k) <==> j == 1) by {
            assert(shorter[j] == attempts[j]);
        }
        lemma_given_up_once::<DP>(preferences, shorter, before, k);
        lemma_given_up::<DP>(preferences, attempts, before, k);
        assert(attempts.last() == attempts[attempts.len() - 1]);
    }
}

/// A preference that cannot be preserved is not tried again while what is preserved only grows: where
/// it comes first, and everything else can be preserved without it, an observer is told exactly once
/// that it is given up.
pub proof fn failed_preference_is_told_once<DP: DependencyProvider>(
    dp: DP,
    root: Key<DP>,
    version: VersionOf<DP>,
    preferences: Seq<PackagePreference<DP::P, DP::VS>>,
    before: Seq<Observed<Key<DP>, VersionOf<DP>>>,
    after: Seq<Observed<Key<DP>, VersionOf<DP>>>,
)
    requires
        preferences.len() > 0,
        forall|i: int|
            0 < i < preferences.len() ==> (#[trigger] preferences[i]).key() != preferences[0].key(),
        tells_each::<DP>(dp, root, version, preferences, before, after, Ok(())),
        !front::achievable(dp, root, version, preferences, everything(preferences.len())),
        front::achievable(
            dp,
            root,
            version,
            preferences,
            everything(preferences.len()).update(0, false),
        ),
    ensures
        observer::total(after, given_up_weight(preferences[0].key())) == observer::total(
            before,
            given_up_weight(preferences[0].key()),
        ) + 1,
{
    let attempts = choose|attempts: Seq<Attempt>| #[trigger]
        are_attempts(dp, root, version, preferences, attempts) && lead_to::<DP>(
            preferences,
            attempts,
            before,
            after,
            Ok(()),
        );
    let k = preferences[0].key();
    sufficient_loss_is_tried_once(dp, root, version, preferences, attempts);
    assert forall|j: int| 0 <= j < attempts.len() implies (given_up_in(
        preferences,
        #[trigger] attempts[j],
    ) == Some(k) <==> j == 1) by {
        attempt_gives_up_one_more(dp, root, version, preferences, attempts, j);
        if j > 0 {
            let i = attempts[j].given_up->0;
            let earlier = attempts.take(j);
            let q = choose|q: int|
                0 <= q < earlier.len() && (#[trigger] earlier[q]).result is NoImprovement && 0 <= i
                    < earlier[q].kept.len() && earlier[q].kept[i] && earlier[q].blamed[i]
                    && attempts[j].kept == earlier[q].kept.update(i, false);
            assert(earlier[q] == attempts[q]);
            assert(is_due(preferences.len(), attempts, q));
            assert(0 <= i < preferences.len());
            if i > 0 {
                assert(preferences[i].key() != k);
            }
        }
    }
    lemma_given_up_once::<DP>(preferences, attempts, before, k);
}

} // verus!
