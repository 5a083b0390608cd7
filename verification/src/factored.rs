//! Fronts of independent preference components, kept as a product.

use vstd::prelude::*;

use crate::front;
use crate::package::Package;
use crate::preference;
use crate::preference::{
    usable_preferences, PackagePreference, PreferenceAlternative, PreferenceDecision,
};
use crate::problem;
use crate::problem::{Key, Selection, VersionOf};
use crate::provider::DependencyProvider;
use crate::version_set::VersionSet;

verus! {

/// All elements of the front agree at the position.
pub open spec fn agreed(front: Seq<Seq<bool>>, i: int) -> bool {
    forall|j: int| 0 <= j < front.len() ==> (#[trigger] front[j])[i] == front[0][i]
}

/// The decisions on the first `n` preferences that all elements of the front agree on.
pub open spec fn agreed_decisions<P: Package, VS: VersionSet>(
    preferences: Seq<PackagePreference<P, VS>>,
    front: Seq<Seq<bool>>,
    n: int,
) -> Seq<(P::V, Set<Option<VS::V>>, bool)>
    decreases n,
{
    if n <= 0 {
        Seq::empty()
    } else {
        let before = agreed_decisions(preferences, front, n - 1);
        let last = preferences[n - 1];
        if agreed(front, n - 1) {
            before.push((last.key(), last.states(), front[0][n - 1]))
        } else {
            before
        }
    }
}

/// The decisions of one element of the front on those of the first `n` preferences that the
/// elements do not agree on.
pub open spec fn own_decisions<P: Package, VS: VersionSet>(
    preferences: Seq<PackagePreference<P, VS>>,
    front: Seq<Seq<bool>>,
    kept: Seq<bool>,
    n: int,
) -> Seq<(P::V, Set<Option<VS::V>>, bool)>
    decreases n,
{
    if n <= 0 {
        Seq::empty()
    } else {
        let before = own_decisions(preferences, front, kept, n - 1);
        let last = preferences[n - 1];
        if agreed(front, n - 1) {
            before
        } else {
            before.push((last.key(), last.states(), kept[n - 1]))
        }
    }
}

/// The decisions of each element of the front on what the elements do not agree on.
pub open spec fn alternatives_of<P: Package, VS: VersionSet>(
    preferences: Seq<PackagePreference<P, VS>>,
    front: Seq<Seq<bool>>,
) -> Seq<Seq<(P::V, Set<Option<VS::V>>, bool)>> {
    Seq::new(
        front.len(),
        |j: int| own_decisions(preferences, front, front[j], preferences.len() as int),
    )
}

/// What the fronts of the first `n` components agree on.
pub open spec fn common_of<P: Package, VS: VersionSet>(
    components: Seq<Seq<PackagePreference<P, VS>>>,
    fronts: Seq<Seq<Seq<bool>>>,
    n: int,
) -> Seq<(P::V, Set<Option<VS::V>>, bool)>
    decreases n,
{
    if n <= 0 {
        Seq::empty()
    } else {
        common_of(components, fronts, n - 1) + agreed_decisions(
            components[n - 1],
            fronts[n - 1],
            components[n - 1].len() as int,
        )
    }
}

/// The alternatives of those of the first `n` components whose front leaves a choice.
pub open spec fn factors_of<P: Package, VS: VersionSet>(
    components: Seq<Seq<PackagePreference<P, VS>>>,
    fronts: Seq<Seq<Seq<bool>>>,
    n: int,
) -> Seq<Seq<Seq<(P::V, Set<Option<VS::V>>, bool)>>>
    decreases n,
{
    if n <= 0 {
        Seq::empty()
    } else {
        let before = factors_of(components, fronts, n - 1);
        if fronts[n - 1].len() > 1 {
            before.push(alternatives_of(components[n - 1], fronts[n - 1]))
        } else {
            before
        }
    }
}

/// Each front holds the maximal combinations of the preferences of its component.
pub open spec fn are_fronts<DP: DependencyProvider>(
    dp: DP,
    root: Key<DP>,
    version: VersionOf<DP>,
    components: Seq<Seq<PackagePreference<DP::P, DP::VS>>>,
    fronts: Seq<Seq<Seq<bool>>>,
) -> bool {
    &&& fronts.len() == components.len()
    &&& forall|i: int|
        0 <= i < fronts.len() ==> {
            &&& (#[trigger] fronts[i]).len() > 0
            &&& front::is_front(
                front::preservable(dp, root, version, components[i]),
                fronts[i],
            )
        }
}

/// Which preferences of each component are preserved in the selection.
pub open spec fn profiles<P: Package, VS: VersionSet>(
    components: Seq<Seq<PackagePreference<P, VS>>>,
    s: Map<P::V, VS::V>,
) -> Seq<Seq<bool>> {
    Seq::new(components.len(), |i: int| front::profile(components[i], s))
}

/// Some solution preserves exactly these preferences of each component.
pub open spec fn jointly_achievable<DP: DependencyProvider>(
    dp: DP,
    root: Key<DP>,
    version: VersionOf<DP>,
    components: Seq<Seq<PackagePreference<DP::P, DP::VS>>>,
    rows: Seq<Seq<bool>>,
) -> bool {
    exists|s: Selection<DP>| #[trigger]
        problem::is_solution(dp, root, version, s) && profiles(components, s) == rows
}

/// Whatever the second one keeps in any component, the first one keeps.
pub open spec fn includes_all(a: Seq<Seq<bool>>, b: Seq<Seq<bool>>) -> bool {
    &&& a.len() == b.len()
    &&& forall|i: int| 0 <= i < b.len() ==> front::includes(a[i], #[trigger] b[i])
}

/// Some solution preserves exactly these preferences of each component, and none preserves more of
/// them.
pub open spec fn jointly_maximal<DP: DependencyProvider>(
    dp: DP,
    root: Key<DP>,
    version: VersionOf<DP>,
    components: Seq<Seq<PackagePreference<DP::P, DP::VS>>>,
    rows: Seq<Seq<bool>>,
) -> bool {
    &&& jointly_achievable(dp, root, version, components, rows)
    &&& forall|other: Seq<Seq<bool>>| #[trigger]
        jointly_achievable(dp, root, version, components, other) && includes_all(other, rows)
            ==> other == rows
}

/// The components are not coupled: what solutions preserve of each can be preserved together.
pub open spec fn independent<DP: DependencyProvider>(
    dp: DP,
    root: Key<DP>,
    version: VersionOf<DP>,
    components: Seq<Seq<PackagePreference<DP::P, DP::VS>>>,
) -> bool {
    forall|rows: Seq<Seq<bool>>|
        rows.len() == components.len() && (forall|i: int|
            0 <= i < rows.len() ==> front::achievable(
                dp,
                root,
                version,
                components[i],
                #[trigger] rows[i],
            )) ==> #[trigger] jointly_achievable(dp, root, version, components, rows)
}

/// All decisions hold in the selection.
pub open spec fn all_met<K, V>(decisions: Seq<(K, Set<Option<V>>, bool)>, s: Map<K, V>) -> bool {
    forall|i: int|
        0 <= i < decisions.len() ==> (#[trigger] decisions[i]).1.contains(s.get(decisions[i].0))
            == decisions[i].2
}

/// The choice names an alternative of every factor.
pub open spec fn is_assignment<T>(factors: Seq<Seq<T>>, selected: Seq<usize>) -> bool {
    &&& selected.len() == factors.len()
    &&& forall|i: int| 0 <= i < selected.len() ==> #[trigger] selected[i] < factors[i].len()
}

/// The usable preferences of each component that has any.
pub open spec fn usable_components<P: Package, VS: VersionSet>(
    root: P::V,
    components: Seq<Vec<PackagePreference<P, VS>>>,
) -> Seq<Seq<PackagePreference<P, VS>>>
    decreases components.len(),
{
    if components.len() == 0 {
        Seq::empty()
    } else {
        let before = usable_components(root, components.drop_last());
        let last = components.last()@.filter(
            |preference: PackagePreference<P, VS>| preference::usable(root, preference),
        );
        if last.len() > 0 {
            before.push(last)
        } else {
            before
        }
    }
}

/// The preferences of each component.
pub open spec fn contents<P: Package, VS: VersionSet>(
    components: Seq<Vec<PackagePreference<P, VS>>>,
) -> Seq<Seq<PackagePreference<P, VS>>> {
    Seq::new(components.len(), |i: int| components[i]@)
}

/// The usable preferences of each component that has any.
pub fn select_components<P: Package, VS: VersionSet>(
    root: &P,
    components: Vec<Vec<PackagePreference<P, VS>>>,
) -> (r: Vec<Vec<PackagePreference<P, VS>>>)
    ensures
        contents(r@) == usable_components(root@, components@),
{
    let ghost all = components@;
    let mut rest = components;
    let mut kept: Vec<Vec<PackagePreference<P, VS>>> = Vec::new();
    let ghost mut done: int = 0;
    proof {
        assert(all.skip(0) =~= all);
        assert(all.take(0) =~= Seq::empty());
        assert(contents(kept@) =~= Seq::empty());
    }
    while rest.len() > 0
        invariant
            0 <= done <= all.len(),
            rest@ == all.skip(done),
            contents(kept@) == usable_components(root@, all.take(done)),
        decreases rest@.len(),
    {
        let ghost before = contents(kept@);
        assert(rest@.len() == all.skip(done).len());
        let component = rest.remove(0);
        assert(component == all[done]);
        let usable = usable_preferences(root, component);
        let ghost list = usable@;
        if usable.len() > 0 {
            kept.push(usable);
            assert(contents(kept@) =~= before.push(list));
        }
        proof {
            assert(all.take(done + 1).drop_last() =~= all.take(done));
            assert(all.take(done + 1).last() == all[done]);
            assert(rest@ =~= all.skip(done + 1));
            done = done + 1;
        }
    }
    assert(all.take(done) =~= all);
    kept
}

/// What all elements of the front have at the position, if they agree.
fn agreed_value(front: &Vec<Vec<bool>>, i: usize) -> (r: Option<bool>)
    requires
        front@.len() > 0,
        forall|j: int| 0 <= j < front@.len() ==> i < (#[trigger] front@[j])@.len(),
    ensures
        match r {
            Some(value) => agreed(front::masks(front@), i as int) && value == front::masks(
                front@,
            )[0][i as int],
            None => !agreed(front::masks(front@), i as int),
        },
{
    let ghost masks = front::masks(front@);
    assert(forall|j: int| 0 <= j < front@.len() ==> #[trigger] masks[j] == front@[j]@);
    let first = front[0][i];
    assert(masks[0] == front@[0]@);
    let mut j: usize = 1;
    while j < front.len()
        invariant
            masks == front::masks(front@),
            front@.len() > 0,
            1 <= j <= front@.len(),
            forall|m: int| 0 <= m < front@.len() ==> i < (#[trigger] front@[m])@.len(),
            first == masks[0][i as int],
            forall|m: int| 0 <= m < j ==> (#[trigger] masks[m])[i as int] == first,
        decreases front@.len() - j,
    {
        assert(masks[j as int] == front@[j as int]@);
        if front[j][i] != first {
            return None;
        }
        j += 1;
    }
    Some(first)
}

/// The decisions that all elements of the front agree on, and the alternatives that they leave.
pub fn split_front<P: Package, VS: VersionSet>(
    preferences: &Vec<PackagePreference<P, VS>>,
    front: &Vec<Vec<bool>>,
) -> (r: (Vec<PreferenceDecision<P, VS>>, Vec<PreferenceAlternative<P, VS>>))
    requires
        front@.len() > 0,
        forall|j: int| 0 <= j < front@.len() ==> (#[trigger] front@[j])@.len() == preferences@.len(),
    ensures
        preference::decided(r.0@) == agreed_decisions(
            preferences@,
            front::masks(front@),
            preferences@.len() as int,
        ),
        preference::choices(r.1@) == alternatives_of(preferences@, front::masks(front@)),
{
    let ghost masks = front::masks(front@);
    let n = preferences.len();
    let mut common: Vec<PreferenceDecision<P, VS>> = Vec::new();
    let mut constant: Vec<bool> = Vec::new();
    let mut i: usize = 0;
    assert(preference::decided(common@) =~= Seq::empty());
    while i < n
        invariant
            n == preferences@.len(),
            masks == front::masks(front@),
            front@.len() > 0,
            forall|j: int| 0 <= j < front@.len() ==> (#[trigger] front@[j])@.len() == n,
            i <= n,
            constant@.len() == i,
            forall|j: int| 0 <= j < i ==> #[trigger] constant@[j] == agreed(masks, j),
            preference::decided(common@) == agreed_decisions(preferences@, masks, i as int),
        decreases n - i,
    {
        let ghost before = preference::decided(common@);
        match agreed_value(front, i) {
            Some(value) => {
                common.push(PreferenceDecision::new(preferences[i].duplicate(), value));
                assert(preference::decided(common@) =~= before.push(
                    (
                        preferences@[i as int].key(),
                        preferences@[i as int].states(),
                        masks[0][i as int],
                    ),
                ));
                constant.push(true);
            },
            None => {
                constant.push(false);
            },
        }
        i += 1;
    }
    let mut alternatives: Vec<PreferenceAlternative<P, VS>> = Vec::new();
    let mut j: usize = 0;
    while j < front.len()
        invariant
            n == preferences@.len(),
            masks == front::masks(front@),
            forall|j: int| 0 <= j < front@.len() ==> (#[trigger] front@[j])@.len() == n,
            constant@.len() == n,
            forall|i: int| 0 <= i < n ==> #[trigger] constant@[i] == agreed(masks, i),
            j <= front@.len(),
            alternatives@.len() == j,
            forall|m: int|
                0 <= m < j ==> #[trigger] alternatives@[m]@ == own_decisions(
                    preferences@,
                    masks,
                    masks[m],
                    n as int,
                ),
        decreases front@.len() - j,
    {
        let ghost kept = masks[j as int];
        assert(kept == front@[j as int]@);
        let mut decisions: Vec<PreferenceDecision<P, VS>> = Vec::new();
        let mut i: usize = 0;
        assert(preference::decided(decisions@) =~= Seq::empty());
        while i < n
            invariant
                n == preferences@.len(),
                j < front@.len(),
                kept == front@[j as int]@,
                kept.len() == n,
                constant@.len() == n,
                forall|i: int| 0 <= i < n ==> #[trigger] constant@[i] == agreed(masks, i),
                i <= n,
                preference::decided(decisions@) == own_decisions(
                    preferences@,
                    masks,
                    kept,
                    i as int,
                ),
            decreases n - i,
        {
            let ghost before = preference::decided(decisions@);
            assert(constant@[i as int] == agreed(masks, i as int));
            if !constant[i] {
                decisions.push(PreferenceDecision::new(preferences[i].duplicate(), front[j][i]));
                assert(preference::decided(decisions@) =~= before.push(
                    (
                        preferences@[i as int].key(),
                        preferences@[i as int].states(),
                        kept[i as int],
                    ),
                ));
            }
            i += 1;
        }
        alternatives.push(PreferenceAlternative::new(decisions));
        j += 1;
    }
    assert(preference::choices(alternatives@) =~= alternatives_of(preferences@, masks));
    (common, alternatives)
}

} // verus!
