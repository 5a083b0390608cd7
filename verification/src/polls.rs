//! What the provider answers whenever it is asked whether to go on.

use vstd::prelude::*;

use crate::error::PubGrubError;
use crate::observer::{Observed, SolverObserver};
use crate::problem::{Key, VersionOf};
use crate::provider::{Dependencies, DependencyProvider};
use crate::version_set::VersionSet;

verus! {

/// What the provider was asked and answered: whether to go on, which version to choose of a package,
/// and what a version depends on; each time with the number of events that had been told.
#[verifier::reject_recursive_types(DP)]
pub struct Polls<DP: DependencyProvider> {
    answers: Ghost<Seq<(int, Result<(), DP::Err>)>>,
    chosen: Ghost<Seq<Choice<DP>>>,
    retrieved: Ghost<Seq<(int, Key<DP>, VersionOf<DP>)>>,
}

/// What the provider was asked and answered when it was to choose a version.
#[verifier::reject_recursive_types(DP)]
pub struct Choice<DP: DependencyProvider> {
    pub told: int,
    pub package: Key<DP>,
    pub range: Set<VersionOf<DP>>,
    pub answer: Result<Option<VersionOf<DP>>, DP::Err>,
}

impl<DP: DependencyProvider> Polls<DP> {
    /// The answers whether to go on, in turn.
    pub closed spec fn view(self) -> Seq<(int, Result<(), DP::Err>)> {
        self.answers@
    }

    /// The choices of versions, in turn.
    pub closed spec fn chosen(self) -> Seq<Choice<DP>> {
        self.chosen@
    }

    /// The versions of which the provider was asked what they depend on, in turn.
    pub closed spec fn retrieved(self) -> Seq<(int, Key<DP>, VersionOf<DP>)> {
        self.retrieved@
    }

    /// The provider has not been asked.
    pub fn new() -> (r: Self)
        ensures
            r@.len() == 0,
            r.chosen().len() == 0,
            r.retrieved().len() == 0,
    {
        Polls {
            answers: Ghost(Seq::empty()),
            chosen: Ghost(Seq::empty()),
            retrieved: Ghost(Seq::empty()),
        }
    }

    /// Ask the provider whether to go on.
    pub fn ask<O: SolverObserver<DP::P, DP::VS, DP::M>>(
        &mut self,
        dependency_provider: &DP,
        observer: &O,
    ) -> (r: Result<(), DP::Err>)
        ensures
            call_ensures(DP::should_cancel, (dependency_provider,), r),
            r is Err ==> dependency_provider.may_fail(),
            final(self)@ == old(self)@.push((observer.log().len() as int, r)),
            final(self).chosen() == old(self).chosen(),
            final(self).retrieved() == old(self).retrieved(),
    {
        let answer = dependency_provider.should_cancel();
        self.answers = Ghost(self.answers@.push((observer.log().len() as int, answer)));
        answer
    }

    /// Ask the provider whether to go on, where no events are told.
    pub fn poll(&mut self, dependency_provider: &DP) -> (r: Result<(), DP::Err>)
        ensures
            call_ensures(DP::should_cancel, (dependency_provider,), r),
            r is Err ==> dependency_provider.may_fail(),
            final(self)@ == old(self)@.push((0, r)),
            final(self).chosen() == old(self).chosen(),
            final(self).retrieved() == old(self).retrieved(),
    {
        let answer = dependency_provider.should_cancel();
        self.answers = Ghost(self.answers@.push((0, answer)));
        answer
    }

    /// Ask the provider to choose a version of the package in the range.
    pub fn choose_version<O: SolverObserver<DP::P, DP::VS, DP::M>>(
        &mut self,
        dependency_provider: &DP,
        package: &DP::P,
        range: &DP::VS,
        observer: &O,
    ) -> (r: Result<Option<VersionOf<DP>>, DP::Err>)
        ensures
            call_ensures(DP::choose_version, (dependency_provider, package, range), r),
            match r {
                Ok(Some(v)) => range@.contains(v) && dependency_provider.offers(package@, v),
                Ok(None) => forall|v: VersionOf<DP>|
                    #![trigger range@.contains(v)]
                    range@.contains(v) ==> !dependency_provider.offers(package@, v),
                Err(_) => dependency_provider.may_fail(),
            },
            final(self)@ == old(self)@,
            final(self).chosen() == old(self).chosen().push(
                Choice {
                    told: observer.log().len() as int,
                    package: package@,
                    range: range@,
                    answer: r,
                },
            ),
            final(self).retrieved() == old(self).retrieved(),
    {
        let answer = dependency_provider.choose_version(package, range);
        self.chosen = Ghost(
            self.chosen@.push(
                Choice {
                    told: observer.log().len() as int,
                    package: package@,
                    range: range@,
                    answer,
                },
            ),
        );
        answer
    }

    /// Ask the provider what the version depends on.
    pub fn get_dependencies<O: SolverObserver<DP::P, DP::VS, DP::M>>(
        &mut self,
        dependency_provider: &DP,
        package: &DP::P,
        version: &VersionOf<DP>,
        observer: &O,
    ) -> (r: Result<Dependencies<DP::P, DP::VS, DP::M>, DP::Err>)
        ensures
            call_ensures(DP::get_dependencies, (dependency_provider, package, version), r),
            match r {
                Ok(dependencies) => dependencies.requirements()
                    == dependency_provider.requirements(package@, *version),
                Err(_) => dependency_provider.may_fail(),
            },
            final(self)@ == old(self)@,
            final(self).chosen() == old(self).chosen(),
            final(self).retrieved() == old(self).retrieved().push(
                (observer.log().len() as int, package@, *version),
            ),
    {
        let answer = dependency_provider.get_dependencies(package, version);
        self.retrieved = Ghost(
            self.retrieved@.push((observer.log().len() as int, package@, *version)),
        );
        answer
    }
}

/// The provider may give the answer.
pub open spec fn is_answered<DP: DependencyProvider>(dp: DP, choice: Choice<DP>) -> bool {
    exists|p: DP::P, set: DP::VS|
        p@ == choice.package && set@ == choice.range && #[trigger] call_ensures(
            DP::choose_version,
            (&dp, &p, &set),
            choice.answer,
        )
}

/// Each choice of a version so far was made right after the choice of its package was told, and was
/// told next; and one was made for each package that was chosen.
#[verifier::opaque]
pub open spec fn are_choices<DP: DependencyProvider>(
    made: int,
    chosen: Seq<Choice<DP>>,
    before: Seq<Observed<Key<DP>, VersionOf<DP>>>,
    after: Seq<Observed<Key<DP>, VersionOf<DP>>>,
) -> bool {
    &&& 0 <= made <= chosen.len()
    &&& before.len() <= after.len()
    &&& forall|c: int|
        made <= c < chosen.len() ==> {
            let choice = #[trigger] chosen[c];
            &&& before.len() < choice.told < after.len()
            &&& after[choice.told - 1] == Observed::<Key<DP>, VersionOf<DP>>::PackageChoice(
                choice.package,
                choice.range,
            )
            &&& match choice.answer {
                Ok(Some(v)) => after[choice.told] == Observed::<
                    Key<DP>,
                    VersionOf<DP>,
                >::VersionChoice(choice.package, v, choice.range),
                Ok(None) => after[choice.told] == Observed::<Key<DP>, VersionOf<DP>>::NoVersion(
                    choice.package,
                    choice.range,
                ),
                Err(_) => false,
            }
        }
    &&& forall|i: int|
        before.len() <= i < after.len() && (#[trigger] after[i]) is PackageChoice ==> exists|c: int|
            made <= c < chosen.len() && (#[trigger] chosen[c]).told == i + 1
}

pub proof fn lemma_no_choices<DP: DependencyProvider>(
    chosen: Seq<Choice<DP>>,
    log: Seq<Observed<Key<DP>, VersionOf<DP>>>,
)
    ensures
        are_choices::<DP>(chosen.len() as int, chosen, log, log),
{
    reveal(are_choices);
}

/// Events follow that choose no package.
pub proof fn lemma_choices_later<DP: DependencyProvider>(
    made: int,
    chosen: Seq<Choice<DP>>,
    before: Seq<Observed<Key<DP>, VersionOf<DP>>>,
    after: Seq<Observed<Key<DP>, VersionOf<DP>>>,
    longer: Seq<Observed<Key<DP>, VersionOf<DP>>>,
)
    requires
        are_choices::<DP>(made, chosen, before, after),
        after.is_prefix_of(longer),
        forall|i: int| after.len() <= i < longer.len() ==> !((#[trigger] longer[i]) is PackageChoice),
    ensures
        are_choices::<DP>(made, chosen, before, longer),
{
    reveal(are_choices);
    let n = after.len() as int;
    assert forall|i: int| 0 <= i < n implies longer[i] == after[i] by {
        assert(after[i] == longer.subrange(0, n)[i]);
    }
    assert forall|i: int|
        before.len() <= i < longer.len() && (#[trigger] longer[i]) is PackageChoice implies exists|
        c: int,
    |
        made <= c < chosen.len() && (#[trigger] chosen[c]).told == i + 1 by {
        assert(after[i] is PackageChoice);
    }
}

/// A package is chosen, and then a version of it or none.
pub proof fn lemma_choice_made<DP: DependencyProvider>(
    made: int,
    chosen: Seq<Choice<DP>>,
    choice: Choice<DP>,
    before: Seq<Observed<Key<DP>, VersionOf<DP>>>,
    after: Seq<Observed<Key<DP>, VersionOf<DP>>>,
    o: Observed<Key<DP>, VersionOf<DP>>,
)
    requires
        are_choices::<DP>(made, chosen, before, after),
        choice.told == after.len() + 1,
        match choice.answer {
            Ok(Some(v)) => o == Observed::<Key<DP>, VersionOf<DP>>::VersionChoice(
                choice.package,
                v,
                choice.range,
            ),
            Ok(None) => o == Observed::<Key<DP>, VersionOf<DP>>::NoVersion(
                choice.package,
                choice.range,
            ),
            Err(_) => false,
        },
    ensures
        are_choices::<DP>(
            made,
            chosen.push(choice),
            before,
            after.push(Observed::PackageChoice(choice.package, choice.range)).push(o),
        ),
{
    reveal(are_choices);
    let longer = after.push(Observed::PackageChoice(choice.package, choice.range)).push(o);
    let more = chosen.push(choice);
    let n = after.len() as int;
    assert forall|i: int| 0 <= i < n implies longer[i] == after[i] by {}
    assert(longer[n + 1] == o);
    assert forall|c: int| made <= c < chosen.len() implies #[trigger] more[c] == chosen[c] by {}
    assert(more[chosen.len() as int] == choice);
    assert forall|i: int|
        before.len() <= i < longer.len() && (#[trigger] longer[i]) is PackageChoice implies exists|
        c: int,
    |
        made <= c < more.len() && (#[trigger] more[c]).told == i + 1 by {
        if i < n {
            assert(after[i] is PackageChoice);
            let c = choose|c: int| made <= c < chosen.len() && (#[trigger] chosen[c]).told == i + 1;
            assert(more[c].told == i + 1);
        } else {
            assert(more[chosen.len() as int].told == i + 1);
        }
    }
}

/// A run has asked the provider for a version of each package that it has chosen, right after it told
/// so, and went by the answer: it told of the version, or that there is none, or returned the error.
#[verifier::opaque]
pub open spec fn are_fresh_choices<DP: DependencyProvider, T>(
    dp: DP,
    earlier: Seq<Choice<DP>>,
    chosen: Seq<Choice<DP>>,
    before: Seq<Observed<Key<DP>, VersionOf<DP>>>,
    after: Seq<Observed<Key<DP>, VersionOf<DP>>>,
    r: Result<T, PubGrubError<DP>>,
) -> bool {
    &&& earlier.is_prefix_of(chosen)
    &&& forall|c: int|
        earlier.len() <= c < chosen.len() ==> {
            let choice = #[trigger] chosen[c];
            &&& is_answered(dp, choice)
            &&& before.len() < choice.told <= after.len()
            &&& after[choice.told - 1] == Observed::<Key<DP>, VersionOf<DP>>::PackageChoice(
                choice.package,
                choice.range,
            )
            &&& match choice.answer {
                Ok(Some(v)) => choice.told < after.len() && after[choice.told] == Observed::<
                    Key<DP>,
                    VersionOf<DP>,
                >::VersionChoice(choice.package, v, choice.range),
                Ok(None) => choice.told < after.len() && after[choice.told] == Observed::<
                    Key<DP>,
                    VersionOf<DP>,
                >::NoVersion(choice.package, choice.range),
                Err(source) => {
                    &&& choice.told == after.len()
                    &&& r is Err && r->Err_0 is ErrorChoosingVersion
                    &&& r->Err_0->ErrorChoosingVersion_package@ == choice.package
                    &&& r->Err_0->ErrorChoosingVersion_source == source
                },
            }
        }
    &&& forall|i: int|
        before.len() <= i < after.len() && (#[trigger] after[i]) is PackageChoice ==> exists|c: int|
            earlier.len() <= c < chosen.len() && (#[trigger] chosen[c]).told == i + 1
}

pub proof fn lemma_fresh_choices<DP: DependencyProvider, T>(
    dp: DP,
    earlier: Seq<Choice<DP>>,
    chosen: Seq<Choice<DP>>,
    before: Seq<Observed<Key<DP>, VersionOf<DP>>>,
    after: Seq<Observed<Key<DP>, VersionOf<DP>>>,
    r: Result<T, PubGrubError<DP>>,
)
    requires
        are_choices::<DP>(earlier.len() as int, chosen, before, after),
        earlier.is_prefix_of(chosen),
        forall|c: int| earlier.len() <= c < chosen.len() ==> is_answered(dp, #[trigger] chosen[c]),
    ensures
        are_fresh_choices(dp, earlier, chosen, before, after, r),
{
    reveal(are_fresh_choices);
    reveal(are_choices);
}

/// The provider fails to choose.
pub proof fn lemma_failed_choice<DP: DependencyProvider, T>(
    dp: DP,
    earlier: Seq<Choice<DP>>,
    chosen: Seq<Choice<DP>>,
    choice: Choice<DP>,
    before: Seq<Observed<Key<DP>, VersionOf<DP>>>,
    after: Seq<Observed<Key<DP>, VersionOf<DP>>>,
    r: Result<T, PubGrubError<DP>>,
)
    requires
        are_choices::<DP>(earlier.len() as int, chosen, before, after),
        earlier.is_prefix_of(chosen),
        forall|c: int| earlier.len() <= c < chosen.len() ==> is_answered(dp, #[trigger] chosen[c]),
        is_answered(dp, choice),
        choice.told == after.len() + 1,
        choice.answer is Err,
        r is Err && r->Err_0 is ErrorChoosingVersion,
        r->Err_0->ErrorChoosingVersion_package@ == choice.package,
        r->Err_0->ErrorChoosingVersion_source == choice.answer->Err_0,
    ensures
        are_fresh_choices(
            dp,
            earlier,
            chosen.push(choice),
            before,
            after.push(Observed::PackageChoice(choice.package, choice.range)),
            r,
        ),
{
    reveal(are_fresh_choices);
    reveal(are_choices);
    let made = earlier.len() as int;
    let longer = after.push(Observed::PackageChoice(choice.package, choice.range));
    let more = chosen.push(choice);
    let n = after.len() as int;
    assert(earlier =~= more.subrange(0, made)) by {
        assert forall|j: int| 0 <= j < made implies earlier[j] == more[j] by {
            assert(earlier[j] == chosen.subrange(0, made)[j]);
        }
    }
    assert forall|i: int| 0 <= i < n implies longer[i] == after[i] by {}
    assert forall|c: int| made <= c < chosen.len() implies #[trigger] more[c] == chosen[c] by {}
    assert(more[chosen.len() as int] == choice);
    assert forall|i: int|
        before.len() <= i < longer.len() && (#[trigger] longer[i]) is PackageChoice implies exists|
        c: int,
    |
        made <= c < more.len() && (#[trigger] more[c]).told == i + 1 by {
        if i < n {
            assert(after[i] is PackageChoice);
            let c = choose|c: int| made <= c < chosen.len() && (#[trigger] chosen[c]).told == i + 1;
            assert(more[c].told == i + 1);
        } else {
            assert(more[chosen.len() as int].told == i + 1);
        }
    }
}

/// One choice more is kept in mind.
pub proof fn lemma_choice_kept<DP: DependencyProvider>(
    dp: DP,
    earlier: Seq<Choice<DP>>,
    chosen: Seq<Choice<DP>>,
    choice: Choice<DP>,
    p: DP::P,
    set: DP::VS,
)
    requires
        earlier.is_prefix_of(chosen),
        forall|c: int| earlier.len() <= c < chosen.len() ==> is_answered(dp, #[trigger] chosen[c]),
        p@ == choice.package,
        set@ == choice.range,
        call_ensures(DP::choose_version, (&dp, &p, &set), choice.answer),
    ensures
        is_answered(dp, choice),
        earlier.is_prefix_of(chosen.push(choice)),
        forall|c: int|
            earlier.len() <= c < chosen.push(choice).len() ==> is_answered(
                dp,
                #[trigger] chosen.push(choice)[c],
            ),
{
    let more = chosen.push(choice);
    let n = earlier.len() as int;
    assert(is_answered(dp, choice));
    assert(earlier =~= more.subrange(0, n)) by {
        assert forall|j: int| 0 <= j < n implies earlier[j] == more[j] by {
            assert(earlier[j] == chosen.subrange(0, n)[j]);
        }
    }
    assert forall|c: int| n <= c < more.len() implies is_answered(dp, #[trigger] more[c]) by {
        if c < chosen.len() {
            assert(more[c] == chosen[c]);
        }
    }
}

/// The provider was asked once of each version what it depends on.
pub open spec fn asks_once<K, V>(retrieved: Seq<(int, K, V)>) -> bool {
    forall|a: int, b: int|
        0 <= a < b < retrieved.len() ==> !((#[trigger] retrieved[a]).1 == (
        #[trigger] retrieved[b]).1 && retrieved[a].2 == retrieved[b].2)
}

/// The provider was asked once of each version what it depends on, and those are the versions of which
/// all was added.
#[verifier::opaque]
pub open spec fn are_added<K, V>(added: Seq<(K, V)>, retrieved: Seq<(int, K, V)>) -> bool {
    &&& asks_once(retrieved)
    &&& forall|c: int|
        0 <= c < retrieved.len() ==> added.contains(
            ((#[trigger] retrieved[c]).1, retrieved[c].2),
        )
    &&& forall|i: int|
        0 <= i < added.len() ==> exists|c: int|
            0 <= c < retrieved.len() && (#[trigger] retrieved[c]).1 == (#[trigger] added[i]).0
                && retrieved[c].2 == added[i].1
}

/// The provider is asked of a version that was not added.
pub proof fn lemma_asked_of_version<K, V>(
    added: Seq<(K, V)>,
    retrieved: Seq<(int, K, V)>,
    told: int,
    k: K,
    v: V,
)
    requires
        are_added(added, retrieved),
        !added.contains((k, v)),
    ensures
        asks_once(retrieved.push((told, k, v))),
        are_added(added.push((k, v)), retrieved.push((told, k, v))),
{
    reveal(are_added);
    let more = retrieved.push((told, k, v));
    let all = added.push((k, v));
    assert forall|a: int, b: int| 0 <= a < b < more.len() implies !((#[trigger] more[a]).1 == (
    #[trigger] more[b]).1 && more[a].2 == more[b].2) by {
        assert(more[a] == retrieved[a]);
        if b < retrieved.len() {
            assert(more[b] == retrieved[b]);
        } else {
            assert(added.contains((retrieved[a].1, retrieved[a].2)));
        }
    }
    assert(all[added.len() as int] == (k, v));
    assert forall|c: int| 0 <= c < more.len() implies all.contains(
        ((#[trigger] more[c]).1, more[c].2),
    ) by {
        if c < retrieved.len() {
            assert(more[c] == retrieved[c]);
            let x = (retrieved[c].1, retrieved[c].2);
            assert(added.contains(x));
            let i = choose|i: int| 0 <= i < added.len() && added[i] == x;
            assert(all[i] == x);
        }
    }
    assert forall|i: int| 0 <= i < all.len() implies exists|c: int|
        0 <= c < more.len() && (#[trigger] more[c]).1 == (#[trigger] all[i]).0 && more[c].2
            == all[i].1 by {
        if i < added.len() {
            assert(all[i] == added[i]);
            let c = choose|c: int|
                0 <= c < retrieved.len() && (#[trigger] retrieved[c]).1 == added[i].0
                    && retrieved[c].2 == added[i].1;
            assert(more[c] == retrieved[c]);
        } else {
            assert(more[retrieved.len() as int] == (told, k, v));
        }
    }
}

/// The provider has been asked in time so far: it let the search go on each time; it was asked before
/// the first event, between any two choices of a package, and after every decision but one that was
/// just made.
#[verifier::opaque]
pub open spec fn keep_up<K, V, E>(
    asked: int,
    polls: Seq<(int, Result<(), E>)>,
    before: Seq<Observed<K, V>>,
    after: Seq<Observed<K, V>>,
) -> bool {
    &&& 0 <= asked <= polls.len()
    &&& before.len() <= after.len()
    &&& polls.len() == asked ==> after.len() == before.len()
    &&& polls.len() > asked ==> polls[asked].0 == before.len()
    &&& forall|j: int|
        asked <= j < polls.len() ==> (#[trigger] polls[j]).1 is Ok && before.len() <= polls[j].0
            <= after.len()
    &&& forall|a: int, b: int|
        before.len() <= a < b < after.len() && (#[trigger] after[a]) is PackageChoice && (
        #[trigger] after[b]) is PackageChoice ==> exists|j: int|
            asked <= j < polls.len() && a < (#[trigger] polls[j]).0 <= b
    &&& forall|i: int|
        before.len() <= i < after.len() - 1 && (#[trigger] after[i]) is Decision ==> exists|j: int|
            asked <= j < polls.len() && (#[trigger] polls[j]).0 == i + 1
}

/// No package was chosen since the provider was last asked, and no decision was made.
#[verifier::opaque]
pub open spec fn is_first_step<K, V, E>(
    polls: Seq<(int, Result<(), E>)>,
    after: Seq<Observed<K, V>>,
) -> bool {
    &&& polls.len() > 0
    &&& forall|i: int|
        0 <= polls.last().0 <= i < after.len() ==> !((#[trigger] after[i]) is PackageChoice) && !(
        after[i] is Decision)
}

pub proof fn lemma_not_asked<K, V, E>(
    polls: Seq<(int, Result<(), E>)>,
    log: Seq<Observed<K, V>>,
)
    ensures
        keep_up(polls.len() as int, polls, log, log),
{
    reveal(keep_up);
}

/// The provider is asked, and lets the search go on.
pub proof fn lemma_asked<K, V, E>(
    asked: int,
    polls: Seq<(int, Result<(), E>)>,
    answer: Result<(), E>,
    before: Seq<Observed<K, V>>,
    after: Seq<Observed<K, V>>,
)
    requires
        keep_up(asked, polls, before, after),
        answer is Ok,
    ensures
        keep_up(asked, polls.push((after.len() as int, answer)), before, after),
        is_first_step(polls.push((after.len() as int, answer)), after),
{
    reveal(keep_up);
    reveal(is_first_step);
    let more = polls.push((after.len() as int, answer));
    assert forall|j: int| asked <= j < more.len() implies (#[trigger] more[j]).1 is Ok
        && before.len() <= more[j].0 <= after.len() by {
        if j < polls.len() {
            assert(more[j] == polls[j]);
        }
    }
    assert forall|a: int, b: int|
        before.len() <= a < b < after.len() && (#[trigger] after[a]) is PackageChoice && (
        #[trigger] after[b]) is PackageChoice implies exists|j: int|
        asked <= j < more.len() && a < (#[trigger] more[j]).0 <= b by {
        let j = choose|j: int| asked <= j < polls.len() && a < (#[trigger] polls[j]).0 <= b;
        assert(more[j] == polls[j]);
    }
    assert forall|i: int|
        before.len() <= i < after.len() - 1 && (#[trigger] after[i]) is Decision implies exists|
        j: int,
    |
        asked <= j < more.len() && (#[trigger] more[j]).0 == i + 1 by {
        let j = choose|j: int| asked <= j < polls.len() && (#[trigger] polls[j]).0 == i + 1;
        assert(more[j] == polls[j]);
    }
}

/// Events of a propagation follow.
pub proof fn lemma_asked_propagation<K, V, E>(
    asked: int,
    polls: Seq<(int, Result<(), E>)>,
    before: Seq<Observed<K, V>>,
    after: Seq<Observed<K, V>>,
    longer: Seq<Observed<K, V>>,
)
    requires
        keep_up(asked, polls, before, after),
        polls.len() > asked,
        is_first_step(polls, after),
        polls.last().0 == after.len(),
        after.is_prefix_of(longer),
        forall|i: int|
            after.len() <= i < longer.len() ==> !((#[trigger] longer[i]) is PackageChoice) && !(
            longer[i] is Decision),
    ensures
        keep_up(asked, polls, before, longer),
        is_first_step(polls, longer),
{
    reveal(keep_up);
    reveal(is_first_step);
    let n = after.len() as int;
    assert forall|i: int| 0 <= i < n implies longer[i] == after[i] by {
        assert(after[i] == longer.subrange(0, n)[i]);
    }
    assert forall|a: int, b: int|
        before.len() <= a < b < longer.len() && (#[trigger] longer[a]) is PackageChoice && (
        #[trigger] longer[b]) is PackageChoice implies exists|j: int|
        asked <= j < polls.len() && a < (#[trigger] polls[j]).0 <= b by {
        assert(longer[a] == after[a] && longer[b] == after[b]);
    }
    assert forall|i: int|
        before.len() <= i < longer.len() - 1 && (#[trigger] longer[i]) is Decision implies exists|
        j: int,
    |
        asked <= j < polls.len() && (#[trigger] polls[j]).0 == i + 1 by {
        assert(longer[i] == after[i]);
        if i == n - 1 {
            assert(polls[polls.len() - 1].0 == i + 1);
        }
    }
}

/// A choice of a package follows.
pub proof fn lemma_asked_choice<K, V, E>(
    asked: int,
    polls: Seq<(int, Result<(), E>)>,
    before: Seq<Observed<K, V>>,
    after: Seq<Observed<K, V>>,
    o: Observed<K, V>,
)
    requires
        keep_up(asked, polls, before, after),
        polls.len() > asked,
        is_first_step(polls, after),
        !(o is Decision),
    ensures
        keep_up(asked, polls, before, after.push(o)),
        after.len() > 0 ==> !(after.last() is Decision) || polls.last().0 == after.len(),
{
    reveal(keep_up);
    reveal(is_first_step);
    let longer = after.push(o);
    let n = after.len() as int;
    let p = polls.last().0;
    assert(polls[polls.len() - 1].0 == p);
    assert forall|i: int| 0 <= i < n implies longer[i] == after[i] by {}
    assert forall|a: int, b: int|
        before.len() <= a < b < longer.len() && (#[trigger] longer[a]) is PackageChoice && (
        #[trigger] longer[b]) is PackageChoice implies exists|j: int|
        asked <= j < polls.len() && a < (#[trigger] polls[j]).0 <= b by {
        assert(longer[a] == after[a]);
        if b < n {
            assert(longer[b] == after[b]);
        } else {
            assert(a < polls[polls.len() - 1].0 <= b);
        }
    }
    assert forall|i: int|
        before.len() <= i < longer.len() - 1 && (#[trigger] longer[i]) is Decision implies exists|
        j: int,
    |
        asked <= j < polls.len() && (#[trigger] polls[j]).0 == i + 1 by {
        assert(longer[i] == after[i]);
        if i == n - 1 {
            assert(i < p);
            assert(polls[polls.len() - 1].0 == i + 1);
        }
    }
}

/// An event follows that is about the version of the package that was chosen.
pub proof fn lemma_asked_version<K, V, E>(
    asked: int,
    polls: Seq<(int, Result<(), E>)>,
    before: Seq<Observed<K, V>>,
    after: Seq<Observed<K, V>>,
    o: Observed<K, V>,
)
    requires
        keep_up(asked, polls, before, after),
        polls.len() > asked,
        after.len() > 0,
        !(after.last() is Decision),
        !(o is PackageChoice),
    ensures
        keep_up(asked, polls, before, after.push(o)),
{
    reveal(keep_up);
    let longer = after.push(o);
    let n = after.len() as int;
    assert forall|i: int| 0 <= i < n implies longer[i] == after[i] by {}
    assert forall|a: int, b: int|
        before.len() <= a < b < longer.len() && (#[trigger] longer[a]) is PackageChoice && (
        #[trigger] longer[b]) is PackageChoice implies exists|j: int|
        asked <= j < polls.len() && a < (#[trigger] polls[j]).0 <= b by {
        assert(longer[a] == after[a] && longer[b] == after[b]);
    }
    assert forall|i: int|
        before.len() <= i < longer.len() - 1 && (#[trigger] longer[i]) is Decision implies exists|
        j: int,
    |
        asked <= j < polls.len() && (#[trigger] polls[j]).0 == i + 1 by {
        assert(longer[i] == after[i]);
        assert(after[n - 1] == after.last());
    }
}

/// A run has asked the provider in time: before the first event, between any two choices of a package,
/// and after every decision. The provider let it go on each time but the last, and the last answer
/// cancels the run where it is an error.
#[verifier::opaque]
pub open spec fn are_in_time<DP: DependencyProvider, T>(
    dp: DP,
    earlier: Seq<(int, Result<(), DP::Err>)>,
    polls: Seq<(int, Result<(), DP::Err>)>,
    before: Seq<Observed<Key<DP>, VersionOf<DP>>>,
    after: Seq<Observed<Key<DP>, VersionOf<DP>>>,
    r: Result<T, PubGrubError<DP>>,
) -> bool {
    let asked = earlier.len() as int;
    &&& earlier.is_prefix_of(polls)
    &&& asked < polls.len()
    &&& polls[asked].0 == before.len()
    &&& forall|j: int|
        asked <= j < polls.len() ==> call_ensures(
            DP::should_cancel,
            (&dp,),
            (#[trigger] polls[j]).1,
        ) && before.len() <= polls[j].0 <= after.len()
    &&& forall|j: int| asked <= j < polls.len() - 1 ==> (#[trigger] polls[j]).1 is Ok
    &&& match polls.last().1 {
        Ok(_) => !(r is Err && r->Err_0 is ErrorInShouldCancel),
        Err(source) => r is Err && r->Err_0 == PubGrubError::<DP>::ErrorInShouldCancel(source),
    }
    &&& forall|a: int, b: int|
        before.len() <= a < b < after.len() && (#[trigger] after[a]) is PackageChoice && (
        #[trigger] after[b]) is PackageChoice ==> exists|j: int|
            asked <= j < polls.len() && a < (#[trigger] polls[j]).0 <= b
    &&& forall|i: int|
        before.len() <= i < after.len() && (#[trigger] after[i]) is Decision ==> exists|j: int|
            asked <= j < polls.len() && (#[trigger] polls[j]).0 == i + 1
}

/// The answer cancels the run.
pub proof fn lemma_cancelled<DP: DependencyProvider, T>(
    dp: DP,
    earlier: Seq<(int, Result<(), DP::Err>)>,
    polls: Seq<(int, Result<(), DP::Err>)>,
    source: DP::Err,
    before: Seq<Observed<Key<DP>, VersionOf<DP>>>,
    after: Seq<Observed<Key<DP>, VersionOf<DP>>>,
)
    requires
        keep_up(earlier.len() as int, polls, before, after),
        earlier.is_prefix_of(polls),
        forall|j: int|
            earlier.len() <= j < polls.len() ==> call_ensures(
                DP::should_cancel,
                (&dp,),
                (#[trigger] polls[j]).1,
            ),
        call_ensures(DP::should_cancel, (&dp,), Err(source)),
    ensures
        are_in_time(
            dp,
            earlier,
            polls.push((after.len() as int, Err(source))),
            before,
            after,
            Err::<T, PubGrubError<DP>>(PubGrubError::ErrorInShouldCancel(source)),
        ),
{
    reveal(are_in_time);
    reveal(keep_up);
    let asked = earlier.len() as int;
    let n = polls.len() as int;
    let more = polls.push((after.len() as int, Err(source)));
    assert(earlier =~= more.subrange(0, asked)) by {
        assert forall|j: int| 0 <= j < asked implies earlier[j] == more[j] by {
            assert(earlier[j] == polls.subrange(0, asked)[j]);
        }
    }
    assert(more[n].0 == after.len());
    assert forall|j: int| asked <= j < more.len() implies call_ensures(
        DP::should_cancel,
        (&dp,),
        (#[trigger] more[j]).1,
    ) && before.len() <= more[j].0 <= after.len() by {
        if j < n {
            assert(more[j] == polls[j]);
        }
    }
    assert forall|j: int| asked <= j < more.len() - 1 implies (#[trigger] more[j]).1 is Ok by {
        assert(more[j] == polls[j]);
    }
    assert forall|a: int, b: int|
        before.len() <= a < b < after.len() && (#[trigger] after[a]) is PackageChoice && (
        #[trigger] after[b]) is PackageChoice implies exists|j: int|
        asked <= j < more.len() && a < (#[trigger] more[j]).0 <= b by {
        let j = choose|j: int| asked <= j < polls.len() && a < (#[trigger] polls[j]).0 <= b;
        assert(more[j] == polls[j]);
    }
    assert forall|i: int|
        before.len() <= i < after.len() && (#[trigger] after[i]) is Decision implies exists|j: int|
        asked <= j < more.len() && (#[trigger] more[j]).0 == i + 1 by {
        if i < after.len() - 1 {
            let j = choose|j: int| asked <= j < polls.len() && (#[trigger] polls[j]).0 == i + 1;
            assert(more[j] == polls[j]);
        }
    }
}

/// The run ends without being cancelled.
pub proof fn lemma_not_cancelled<DP: DependencyProvider, T>(
    dp: DP,
    earlier: Seq<(int, Result<(), DP::Err>)>,
    polls: Seq<(int, Result<(), DP::Err>)>,
    before: Seq<Observed<Key<DP>, VersionOf<DP>>>,
    after: Seq<Observed<Key<DP>, VersionOf<DP>>>,
    r: Result<T, PubGrubError<DP>>,
)
    requires
        keep_up(earlier.len() as int, polls, before, after),
        earlier.is_prefix_of(polls),
        earlier.len() < polls.len(),
        forall|j: int|
            earlier.len() <= j < polls.len() ==> call_ensures(
                DP::should_cancel,
                (&dp,),
                (#[trigger] polls[j]).1,
            ),
        is_first_step(polls, after) || after.len() > 0 && !(after.last() is Decision),
        !(r is Err && r->Err_0 is ErrorInShouldCancel),
    ensures
        are_in_time(dp, earlier, polls, before, after, r),
{
    reveal(are_in_time);
    reveal(keep_up);
    reveal(is_first_step);
    let asked = earlier.len() as int;
    assert(polls[polls.len() - 1].1 is Ok);
    assert forall|i: int|
        before.len() <= i < after.len() && (#[trigger] after[i]) is Decision implies exists|j: int|
        asked <= j < polls.len() && (#[trigger] polls[j]).0 == i + 1 by {
        if i == after.len() - 1 {
            assert(after[i] == after.last());
            assert(polls[polls.len() - 1].0 == i + 1);
        }
    }
}

/// The provider was asked so and so often, and let it go on each time but perhaps the last.
pub open spec fn are_answers<DP: DependencyProvider, T>(
    dp: DP,
    polls: Seq<(int, Result<(), DP::Err>)>,
    r: Result<T, PubGrubError<DP>>,
) -> bool {
    &&& forall|j: int|
        0 <= j < polls.len() ==> call_ensures(DP::should_cancel, (&dp,), (#[trigger] polls[j]).1)
    &&& forall|j: int| 0 <= j < polls.len() - 1 ==> (#[trigger] polls[j]).1 is Ok
    &&& polls.len() > 0 && polls.last().1 is Err ==> r is Err && r->Err_0
        == PubGrubError::<DP>::ErrorInShouldCancel(polls.last().1->Err_0)
}

/// The provider let it go on each time.
pub open spec fn all_go_on<DP: DependencyProvider>(
    dp: DP,
    polls: Seq<(int, Result<(), DP::Err>)>,
) -> bool {
    forall|j: int|
        0 <= j < polls.len() ==> (#[trigger] polls[j]).1 is Ok && call_ensures(
            DP::should_cancel,
            (&dp,),
            polls[j].1,
        )
}

pub proof fn lemma_polled<DP: DependencyProvider, T>(
    dp: DP,
    polls: Seq<(int, Result<(), DP::Err>)>,
    answer: Result<(), DP::Err>,
    r: Result<T, PubGrubError<DP>>,
)
    requires
        all_go_on(dp, polls),
        call_ensures(DP::should_cancel, (&dp,), answer),
    ensures
        are_answers(dp, polls, r),
        answer is Ok ==> all_go_on(dp, polls.push((0, answer))),
        answer is Err && r is Err && r->Err_0 == PubGrubError::<DP>::ErrorInShouldCancel(
            answer->Err_0,
        ) ==> are_answers(dp, polls.push((0, answer)), r),
{
    let more = polls.push((0, answer));
    assert forall|j: int| 0 <= j < more.len() implies call_ensures(
        DP::should_cancel,
        (&dp,),
        (#[trigger] more[j]).1,
    ) by {
        if j < polls.len() {
            assert(more[j] == polls[j]);
        }
    }
    assert forall|j: int| 0 <= j < more.len() - 1 implies (#[trigger] more[j]).1 is Ok by {
        assert(more[j] == polls[j]);
    }
    if polls.len() > 0 {
        assert(polls[polls.len() - 1].1 is Ok);
    }
}

} // verus!
