//! Soft conditions on package states, and compact products of choices between them.

use vstd::prelude::*;

use crate::package::Package;
use crate::search::Clause;
use crate::term;
use crate::term::Term;
use crate::version_set::VersionSet;

verus! {

/// A soft package-state condition used by minimal-change solution enumeration.
///
/// A solution which satisfies a strict superset of these conditions changes a strict subset of
/// the caller's baseline state. Preferences are optimized by set inclusion, not by assigning
/// arbitrary numeric weights to packages.
#[derive(Debug, Clone, Eq, PartialEq)]
pub struct PackagePreference<P: Package, VS: VersionSet> {
    package: P,
    preferred: Term<VS>,
}

impl<P: Package, VS: VersionSet> PackagePreference<P, VS> {
    /// What identifies the package.
    pub closed spec fn key(self) -> P::V {
        self.package@
    }

    /// The preferred states of the package; `None` is the absent package.
    pub closed spec fn states(self) -> Set<Option<VS::V>> {
        self.preferred@
    }

    /// The preferred state is preserved in the selection.
    pub open spec fn kept_in(self, s: Map<P::V, VS::V>) -> bool {
        self.states().contains(s.get(self.key()))
    }

    /// Prefer selecting this package inside the supplied version set.
    pub fn selected(package: P, versions: VS) -> (r: Self)
        ensures
            r.key() == package@,
            r.states() == term::selected_in(versions@),
    {
        PackagePreference { package, preferred: Term::Positive(versions) }
    }

    /// Prefer leaving this package absent from the solution.
    pub fn absent(package: P) -> (r: Self)
        ensures
            r.key() == package@,
            r.states() == Set::<Option<VS::V>>::empty().insert(None),
    {
        let r = PackagePreference { package, preferred: Term::Negative(VS::full()) };
        assert(r.states() =~= Set::<Option<VS::V>>::empty().insert(None));
        r
    }

    /// Package whose state this preference describes.
    pub fn package(&self) -> (r: &P)
        ensures
            r@ == self.key(),
    {
        &self.package
    }

    /// Term which is satisfied when the preferred state is preserved.
    pub fn preferred(&self) -> (r: &Term<VS>)
        ensures
            r@ == self.states(),
    {
        &self.preferred
    }

    /// The same preference.
    pub fn duplicate(&self) -> (r: Self)
        ensures
            r.key() == self.key(),
            r.states() == self.states(),
    {
        PackagePreference {
            package: self.package.duplicate(),
            preferred: self.preferred.duplicate(),
        }
    }

    /// Whether both preferences prefer the same states of the same package.
    fn same(&self, other: &Self) -> (r: bool)
        ensures
            r == (self.key() == other.key() && self.states() == other.states()),
    {
        self.package.same(&other.package) && self.preferred.same(&other.preferred)
    }
}

/// One fixed truth value for a soft package-state preference.
#[derive(Debug, Clone, Eq, PartialEq)]
pub struct PreferenceDecision<P: Package, VS: VersionSet> {
    preference: PackagePreference<P, VS>,
    satisfied: bool,
}

impl<P: Package, VS: VersionSet> PreferenceDecision<P, VS> {
    /// What identifies the package.
    pub closed spec fn key(self) -> P::V {
        self.preference.key()
    }

    /// The preferred states of the package.
    pub closed spec fn states(self) -> Set<Option<VS::V>> {
        self.preference.states()
    }

    /// Whether the preferred state must be satisfied.
    pub closed spec fn satisfied(self) -> bool {
        self.satisfied
    }

    /// The package with its preferred states, and the truth value.
    pub open spec fn view(self) -> (P::V, Set<Option<VS::V>>, bool) {
        (self.key(), self.states(), self.satisfied())
    }

    /// The package with the states that the decision demands.
    pub open spec fn part(self) -> (P::V, Set<Option<VS::V>>) {
        (
            self.key(),
            if self.satisfied() {
                self.states()
            } else {
                self.states().complement()
            },
        )
    }

    /// Fix the truth value of the preference.
    pub fn new(preference: PackagePreference<P, VS>, satisfied: bool) -> (r: Self)
        ensures
            r@ == (preference.key(), preference.states(), satisfied),
    {
        PreferenceDecision { preference, satisfied }
    }

    /// Preference whose truth value was fixed.
    pub fn preference(&self) -> (r: &PackagePreference<P, VS>)
        ensures
            r.key() == self.key(),
            r.states() == self.states(),
    {
        &self.preference
    }

    /// Whether the preferred state must be satisfied.
    pub fn is_satisfied(&self) -> (r: bool)
        ensures
            r == self.satisfied(),
    {
        self.satisfied
    }

    /// The same decision.
    pub fn duplicate(&self) -> (r: Self)
        ensures
            r@ == self@,
    {
        PreferenceDecision { preference: self.preference.duplicate(), satisfied: self.satisfied }
    }

    /// Whether both decisions fix the same truth value of the same preference.
    pub fn same(&self, other: &Self) -> (r: bool)
        ensures
            r == (self@ == other@),
    {
        self.satisfied == other.satisfied && self.preference.same(&other.preference)
    }
}

/// The views of the decisions, in order.
pub open spec fn decided<P: Package, VS: VersionSet>(
    decisions: Seq<PreferenceDecision<P, VS>>,
) -> Seq<(P::V, Set<Option<VS::V>>, bool)> {
    Seq::new(decisions.len(), |i: int| decisions[i]@)
}

/// What the decisions demand.
pub open spec fn demands<P: Package, VS: VersionSet>(
    decisions: Seq<PreferenceDecision<P, VS>>,
) -> Clause<P::V, VS::V> {
    Seq::new(decisions.len(), |i: int| decisions[i].part())
}

fn duplicate_decisions<P: Package, VS: VersionSet>(
    decisions: &Vec<PreferenceDecision<P, VS>>,
) -> (r: Vec<PreferenceDecision<P, VS>>)
    ensures
        decided(r@) == decided(decisions@),
{
    let mut copy: Vec<PreferenceDecision<P, VS>> = Vec::new();
    extend_decisions(&mut copy, decisions);
    assert(decided(copy@) =~= decided(decisions@));
    copy
}

fn extend_decisions<P: Package, VS: VersionSet>(
    list: &mut Vec<PreferenceDecision<P, VS>>,
    decisions: &Vec<PreferenceDecision<P, VS>>,
)
    ensures
        decided(final(list)@) == decided(old(list)@) + decided(decisions@),
{
    let ghost before = decided(list@);
    let ghost all = decided(decisions@);
    let mut i: usize = 0;
    assert(before + all.take(0) =~= before);
    while i < decisions.len()
        invariant
            i <= decisions@.len(),
            all == decided(decisions@),
            decided(list@) == before + all.take(i as int),
        decreases decisions@.len() - i,
    {
        let ghost prefix = decided(list@);
        list.push(decisions[i].duplicate());
        proof {
            assert(decided(list@) =~= prefix.push(all[i as int]));
            assert(all.take(i + 1) =~= all.take(i as int).push(all[i as int]));
            assert(before + all.take(i + 1) =~= (before + all.take(i as int)).push(all[i as int]));
        }
        i += 1;
    }
    assert(all.take(i as int) =~= all);
}

/// One Pareto-maximal assignment inside an independent preference factor.
#[derive(Debug, Clone, Eq, PartialEq)]
pub struct PreferenceAlternative<P: Package, VS: VersionSet> {
    decisions: Vec<PreferenceDecision<P, VS>>,
}

impl<P: Package, VS: VersionSet> PreferenceAlternative<P, VS> {
    /// The decisions, in order.
    pub closed spec fn view(self) -> Seq<(P::V, Set<Option<VS::V>>, bool)> {
        decided(self.decisions@)
    }

    /// The alternative made of the decisions.
    pub fn new(decisions: Vec<PreferenceDecision<P, VS>>) -> (r: Self)
        ensures
            r@ == decided(decisions@),
    {
        PreferenceAlternative { decisions }
    }

    /// Decisions which distinguish this alternative from its siblings.
    pub fn decisions(&self) -> (r: &[PreferenceDecision<P, VS>])
        ensures
            decided(r@) == self@,
    {
        self.decisions.as_slice()
    }

    /// Whether both alternatives are made of the same decisions.
    pub fn same(&self, other: &Self) -> (r: bool)
        ensures
            r == (self@ == other@),
    {
        if self.decisions.len() != other.decisions.len() {
            assert(self@.len() != other@.len());
            return false;
        }
        let mut i: usize = 0;
        while i < self.decisions.len()
            invariant
                i <= self.decisions@.len(),
                self.decisions@.len() == other.decisions@.len(),
                forall|j: int| 0 <= j < i ==> #[trigger] self.decisions@[j]@ == other.decisions@[j]@,
            decreases self.decisions@.len() - i,
        {
            if !self.decisions[i].same(&other.decisions[i]) {
                assert(self@[i as int] != other@[i as int]);
                return false;
            }
            i += 1;
        }
        assert(self@ =~= other@);
        true
    }
}

/// Mutually exclusive alternatives for one independent preference component.
#[derive(Debug, Clone, Eq, PartialEq)]
pub struct PreferenceFactor<P: Package, VS: VersionSet> {
    alternatives: Vec<PreferenceAlternative<P, VS>>,
}

/// The views of the alternatives, in order.
pub open spec fn choices<P: Package, VS: VersionSet>(
    alternatives: Seq<PreferenceAlternative<P, VS>>,
) -> Seq<Seq<(P::V, Set<Option<VS::V>>, bool)>> {
    Seq::new(alternatives.len(), |i: int| alternatives[i]@)
}

impl<P: Package, VS: VersionSet> PreferenceFactor<P, VS> {
    /// The alternatives, in order.
    pub closed spec fn view(self) -> Seq<Seq<(P::V, Set<Option<VS::V>>, bool)>> {
        choices(self.alternatives@)
    }

    /// The factor made of the alternatives.
    pub fn new(alternatives: Vec<PreferenceAlternative<P, VS>>) -> (r: Self)
        ensures
            r@ == choices(alternatives@),
    {
        PreferenceFactor { alternatives }
    }

    /// Pareto-maximal alternatives available for this factor.
    pub fn alternatives(&self) -> (r: &[PreferenceAlternative<P, VS>])
        ensures
            choices(r@) == self@,
    {
        self.alternatives.as_slice()
    }
}

/// A compact product of independent Pareto-maximal preference choices.
///
/// Every decision in [`common`](Self::common) applies to every complete assignment. A complete
/// assignment then selects exactly one alternative from each factor. The representation therefore
/// grows with the sum of independent alternatives rather than their Cartesian product.
#[derive(Debug, Eq, PartialEq)]
pub struct FactoredPreferenceSolutions<P: Package, VS: VersionSet> {
    common: Vec<PreferenceDecision<P, VS>>,
    factors: Vec<PreferenceFactor<P, VS>>,
}

/// The views of the factors, in order.
pub open spec fn factored<P: Package, VS: VersionSet>(
    factors: Seq<PreferenceFactor<P, VS>>,
) -> Seq<Seq<Seq<(P::V, Set<Option<VS::V>>, bool)>>> {
    Seq::new(factors.len(), |i: int| factors[i]@)
}

/// The number of ways to choose one element from each list.
pub open spec fn product<T>(factors: Seq<Seq<T>>) -> nat
    decreases factors.len(),
{
    if factors.len() == 0 {
        1
    } else {
        product(factors.drop_last()) * factors.last().len()
    }
}

/// Every list leaves a choice.
pub open spec fn branching<T>(factors: Seq<Seq<T>>) -> bool {
    forall|i: int| 0 <= i < factors.len() ==> (#[trigger] factors[i]).len() >= 2
}

proof fn lemma_product<T>(factors: Seq<Seq<T>>, n: int)
    requires
        branching(factors),
        0 <= n <= factors.len(),
    ensures
        1 <= product(factors.take(n)) <= product(factors),
        factors.len() > 0 ==> product(factors) > 1,
    decreases factors.len(),
{
    if n == factors.len() {
        assert(factors.take(n) =~= factors);
    }
    if factors.len() > 0 {
        let before = factors.drop_last();
        let last = factors.last().len();
        assert(factors.last() == factors[factors.len() - 1]);
        assert(branching(before)) by {
            assert forall|i: int| 0 <= i < before.len() implies (#[trigger] before[i]).len()
                >= 2 by {
                assert(before[i] == factors[i]);
            }
        }
        let m = if n < factors.len() {
            n
        } else {
            n - 1
        };
        lemma_product(before, m);
        assert(before.take(m) =~= factors.take(m));
        let p = product(before);
        assert(p * last >= 2 * p) by (nonlinear_arith)
            requires
                last >= 2,
                p >= 0,
        ;
    }
}

/// The lists that the choices pick, one after the other.
pub open spec fn picked<T>(factors: Seq<Seq<Seq<T>>>, selected: Seq<usize>) -> Seq<T>
    decreases factors.len(),
{
    if factors.len() == 0 {
        Seq::empty()
    } else {
        picked(factors.drop_last(), selected) + factors.last()[selected[factors.len() - 1] as int]
    }
}

impl<P: Package, VS: VersionSet> FactoredPreferenceSolutions<P, VS> {
    /// The decisions that all assignments share.
    pub closed spec fn shared(self) -> Seq<(P::V, Set<Option<VS::V>>, bool)> {
        decided(self.common@)
    }

    /// The alternatives of each factor.
    pub closed spec fn open_choices(self) -> Seq<Seq<Seq<(P::V, Set<Option<VS::V>>, bool)>>> {
        factored(self.factors@)
    }

    #[verifier::type_invariant]
    spec fn inv(self) -> bool {
        branching(factored(self.factors@))
    }

    /// Every alternative of a factor has a number.
    pub proof fn lemma_alternatives_are_numbered(self)
        ensures
            forall|i: int|
                0 <= i < self.open_choices().len() ==> (#[trigger] self.open_choices()[i]).len()
                    <= usize::MAX,
    {
        assert forall|i: int| 0 <= i < self.open_choices().len() implies (
        #[trigger] self.open_choices()[i]).len() <= usize::MAX by {
            assert(self.open_choices()[i].len() == self.factors@[i].alternatives.len());
        }
    }

    /// The product of the factors, with the decisions that all assignments share.
    pub fn new(
        common: Vec<PreferenceDecision<P, VS>>,
        factors: Vec<PreferenceFactor<P, VS>>,
    ) -> (r: Self)
        requires
            branching(factored(factors@)),
        ensures
            r.shared() == decided(common@),
            r.open_choices() == factored(factors@),
    {
        FactoredPreferenceSolutions { common, factors }
    }

    /// Decisions shared by every complete assignment.
    pub fn common(&self) -> (r: &[PreferenceDecision<P, VS>])
        ensures
            decided(r@) == self.shared(),
    {
        self.common.as_slice()
    }

    /// Independent factors whose alternatives form the complete solution space.
    pub fn factors(&self) -> (r: &[PreferenceFactor<P, VS>])
        ensures
            factored(r@) == self.open_choices(),
            branching(self.open_choices()),
    {
        proof {
            use_type_invariant(self);
        }
        self.factors.as_slice()
    }

    /// Number of represented complete assignments, or `None` if the product exceeds `u128`.
    pub fn complete_assignment_count(&self) -> (r: Option<u128>)
        ensures
            match r {
                Some(count) => count == product(self.open_choices()),
                None => product(self.open_choices()) > u128::MAX,
            },
    {
        proof {
            use_type_invariant(self);
        }
        let mut count: u128 = 1;
        let ghost all = self.open_choices();
        assert(product(all.take(0)) == 1);
        let mut i: usize = 0;
        while i < self.factors.len()
            invariant
                all == self.open_choices(),
                i <= self.factors@.len(),
                branching(all),
                count == product(all.take(i as int)),
            decreases self.factors@.len() - i,
        {
            let size = self.factors[i].alternatives.len() as u128;
            proof {
                assert(all.take(i + 1).drop_last() =~= all.take(i as int));
                assert(all.take(i + 1).last() == self.factors@[i as int]@);
                assert(product(all.take(i + 1)) == count * size);
            }
            match count.checked_mul(size) {
                Some(next) => {
                    count = next;
                },
                None => {
                    proof {
                        lemma_product(all, i + 1);
                    }
                    return None;
                },
            }
            i += 1;
        }
        assert(all.take(i as int) =~= all);
        Some(count)
    }

    /// Whether the factored space contains exactly one complete assignment.
    pub fn is_unique(&self) -> (r: bool)
        ensures
            r == (product(self.open_choices()) == 1),
    {
        proof {
            use_type_invariant(self);
            lemma_product(self.open_choices(), 0);
        }
        self.factors.len() == 0
    }

    /// Combine the common decisions with one selected alternative per factor.
    pub fn decisions_for(&self, selected_alternatives: &[usize]) -> (r: Option<
        Vec<PreferenceDecision<P, VS>>,
    >)
        ensures
            r is Some <==> {
                &&& selected_alternatives@.len() == self.open_choices().len()
                &&& forall|i: int|
                    0 <= i < selected_alternatives@.len() ==> #[trigger] selected_alternatives@[i]
                        < self.open_choices()[i].len()
            },
            r matches Some(decisions) ==> decided(decisions@) == self.shared() + picked(
                self.open_choices(),
                selected_alternatives@,
            ),
    {
        if selected_alternatives.len() != self.factors.len() {
            return None;
        }
        let ghost all = self.open_choices();
        let ghost selected = selected_alternatives@;
        let mut decisions = duplicate_decisions(&self.common);
        assert(decided(decisions@) =~= self.shared() + picked(all.take(0), selected));
        let mut i: usize = 0;
        while i < self.factors.len()
            invariant
                all == self.open_choices(),
                selected == selected_alternatives@,
                selected.len() == self.factors@.len(),
                i <= self.factors@.len(),
                forall|j: int| 0 <= j < i ==> #[trigger] selected[j] < all[j].len(),
                decided(decisions@) == self.shared() + picked(all.take(i as int), selected),
            decreases self.factors@.len() - i,
        {
            let choice = selected_alternatives[i];
            assert(all[i as int] == self.factors@[i as int]@);
            if choice >= self.factors[i].alternatives.len() {
                assert(!(selected[i as int] < all[i as int].len()));
                return None;
            }
            extend_decisions(&mut decisions, &self.factors[i].alternatives[choice].decisions);
            proof {
                assert(all.take(i + 1).drop_last() =~= all.take(i as int));
                assert(all.take(i + 1).last() == all[i as int]);
                assert(decided(decisions@) =~= self.shared() + picked(all.take(i + 1), selected));
            }
            i += 1;
        }
        assert(all.take(i as int) =~= all);
        Some(decisions)
    }
}

impl<P: Package, VS: VersionSet> Clone for FactoredPreferenceSolutions<P, VS> {
    fn clone(&self) -> (r: Self)
        ensures
            r.shared() == self.shared(),
            r.open_choices() == self.open_choices(),
    {
        proof {
            use_type_invariant(self);
        }
        let common = duplicate_decisions(&self.common);
        let mut factors: Vec<PreferenceFactor<P, VS>> = Vec::new();
        let mut i: usize = 0;
        while i < self.factors.len()
            invariant
                i <= self.factors@.len(),
                factors@.len() == i,
                forall|j: int| 0 <= j < i ==> #[trigger] factors@[j]@ == self.factors@[j]@,
            decreases self.factors@.len() - i,
        {
            let mut alternatives: Vec<PreferenceAlternative<P, VS>> = Vec::new();
            let given = &self.factors[i].alternatives;
            let mut m: usize = 0;
            while m < given.len()
                invariant
                    m <= given@.len(),
                    alternatives@.len() == m,
                    forall|j: int| 0 <= j < m ==> #[trigger] alternatives@[j]@ == given@[j]@,
                decreases given@.len() - m,
            {
                alternatives.push(
                    PreferenceAlternative { decisions: duplicate_decisions(&given[m].decisions) },
                );
                m += 1;
            }
            assert(choices(alternatives@) =~= choices(given@));
            factors.push(PreferenceFactor { alternatives });
            i += 1;
        }
        assert(factored(factors@) =~= factored(self.factors@));
        FactoredPreferenceSolutions { common, factors }
    }
}

/// Whether the preference says something about a package other than the root.
pub open spec fn usable<P: Package, VS: VersionSet>(
    root: P::V,
    preference: PackagePreference<P, VS>,
) -> bool {
    &&& preference.key() != root
    &&& preference.states() != Set::<Option<VS::V>>::full()
    &&& preference.states() != Set::<Option<VS::V>>::empty()
}

/// The preferences that say something about a package other than the root, in order.
pub fn usable_preferences<P: Package, VS: VersionSet>(
    root_package: &P,
    preferences: Vec<PackagePreference<P, VS>>,
) -> (r: Vec<PackagePreference<P, VS>>)
    ensures
        r@ == preferences@.filter(
            |preference: PackagePreference<P, VS>| usable(root_package@, preference),
        ),
{
    let ghost all = preferences@;
    let ghost keep = |preference: PackagePreference<P, VS>| usable(root_package@, preference);
    let mut rest = preferences;
    let mut kept: Vec<PackagePreference<P, VS>> = Vec::new();
    let ghost mut done: int = 0;
    proof {
        assert(all.skip(0) =~= all);
        reveal(Seq::filter);
        assert(all.take(0).filter(keep) =~= Seq::empty());
    }
    while rest.len() > 0
        invariant
            keep == (|preference: PackagePreference<P, VS>| usable(root_package@, preference)),
            0 <= done <= all.len(),
            rest@ == all.skip(done),
            kept@ == all.take(done).filter(keep),
        decreases rest@.len(),
    {
        assert(rest@.len() == all.skip(done).len());
        let preference = rest.remove(0);
        let ghost held = kept@;
        assert(preference == all[done]);
        let wanted = !preference.package.same(root_package) && !preference.preferred.same(
            &Term::any(),
        ) && !preference.preferred.same(&Term::empty());
        assert(wanted == keep(preference));
        if wanted {
            kept.push(preference);
        }
        proof {
            reveal(Seq::filter);
            assert(all.take(done + 1).drop_last() =~= all.take(done));
            assert(all.take(done + 1).last() == all[done]);
            assert(kept@ =~= all.take(done + 1).filter(keep));
            assert(rest@ =~= all.skip(done + 1));
            done = done + 1;
        }
    }
    assert(all.take(done) =~= all);
    kept
}

} // verus!
