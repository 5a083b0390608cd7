//! A dependency provider that holds everything in memory.

use std::convert::Infallible;

use vstd::prelude::*;

use crate::package::Package;
use crate::provider;
use crate::provider::{
    Dependencies, DependencyConstraints, DependencyProvider, IncompatibilityConstraints,
};
use crate::search::Clause;
use crate::statistics::PackageResolutionStatistics;
use crate::version;
use crate::version::Version;
use crate::version_set::VersionSet;

verus! {

/// A package version with its dependencies.
#[derive(Debug)]
struct Release<P, VS: VersionSet> {
    package: P,
    version: VS::V,
    dependencies: DependencyConstraints<P, VS>,
}

/// A basic implementation of [DependencyProvider], which knows the package versions that it was
/// told about and nothing else.
#[derive(Debug)]
pub struct OfflineDependencyProvider<P: Package, VS: VersionSet> {
    releases: Vec<Release<P, VS>>,
}

/// What the releases require, where later ones override earlier ones.
closed spec fn known<P: Package, VS: VersionSet>(releases: Seq<Release<P, VS>>) -> Map<
    (P::V, VS::V),
    Seq<(P::V, Set<VS::V>)>,
>
    decreases releases.len(),
{
    if releases.len() == 0 {
        Map::empty()
    } else {
        let last = releases.last();
        known(releases.drop_last()).insert(
            (last.package@, last.version),
            provider::requirements_of(last.dependencies@),
        )
    }
}

/// The package version that the release is of.
spec fn pair_of<P: Package, VS: VersionSet>(release: Release<P, VS>) -> (P::V, VS::V) {
    (release.package@, release.version)
}

/// No package version has two releases.
spec fn each_once<P: Package, VS: VersionSet>(releases: Seq<Release<P, VS>>) -> bool {
    forall|i: int, j: int|
        0 <= i < releases.len() && 0 <= j < releases.len() && i != j ==> #[trigger] pair_of(releases[i]) != #[trigger] pair_of(releases[j])
}

proof fn lemma_known_finite<P: Package, VS: VersionSet>(releases: Seq<Release<P, VS>>)
    ensures
        known(releases).dom().finite(),
    decreases releases.len(),
{
    if releases.len() > 0 {
        lemma_known_finite(releases.drop_last());
    }
}

proof fn lemma_known<P: Package, VS: VersionSet>(releases: Seq<Release<P, VS>>)
    requires
        each_once(releases),
    ensures
        forall|i: int|
            0 <= i < releases.len() ==> {
                &&& known(releases).dom().contains(
                    #[trigger] pair_of(releases[i]),
                )
                &&& known(releases)[pair_of(releases[i])]
                    == provider::requirements_of(releases[i].dependencies@)
            },
        forall|x: (P::V, VS::V)| #[trigger]
            known(releases).dom().contains(x) ==> exists|i: int|
                0 <= i < releases.len() && #[trigger] pair_of(releases[i])
                    == x,
    decreases releases.len(),
{
    if releases.len() > 0 {
        let before = releases.drop_last();
        let n = before.len() as int;
        let last = pair_of(releases[n]);
        assert(each_once(before)) by {
            assert forall|i: int, j: int|
                0 <= i < before.len() && 0 <= j < before.len() && i != j implies #[trigger] pair_of(before[i]) != #[trigger] pair_of(before[j]) by {
                assert(pair_of(releases[i]) != pair_of(releases[j]));
            }
        }
        lemma_known(before);
        assert forall|i: int| 0 <= i < releases.len() implies {
            &&& known(releases).dom().contains(
                #[trigger] pair_of(releases[i]),
            )
            &&& known(releases)[pair_of(releases[i])]
                == provider::requirements_of(releases[i].dependencies@)
        } by {
            if i < n {
                assert(known(before).dom().contains(pair_of(before[i])));
                assert(pair_of(releases[i]) != last);
            }
        }
        assert forall|x: (P::V, VS::V)| #[trigger] known(releases).dom().contains(
            x,
        ) implies exists|i: int|
            0 <= i < releases.len() && #[trigger] pair_of(releases[i])
                == x by {
            if x == last {
                assert(pair_of(releases[n]) == x);
            } else {
                assert(known(before).dom().contains(x));
                let i = choose|i: int|
                    0 <= i < before.len() && #[trigger] pair_of(before[i])
                        == x;
                assert(pair_of(releases[i]) == x);
            }
        }
    }
}

/// Replacing a release replaces what is known of it.
proof fn lemma_known_update<P: Package, VS: VersionSet>(
    releases: Seq<Release<P, VS>>,
    i: int,
    new: Release<P, VS>,
)
    requires
        each_once(releases),
        0 <= i < releases.len(),
        releases[i].package@ == new.package@,
        releases[i].version == new.version,
    ensures
        each_once(releases.update(i, new)),
        known(releases.update(i, new)) == known(releases).insert(
            (new.package@, new.version),
            provider::requirements_of(new.dependencies@),
        ),
{
    let after = releases.update(i, new);
    let x = (new.package@, new.version);
    assert forall|a: int, b: int|
        0 <= a < after.len() && 0 <= b < after.len() && a != b implies #[trigger] pair_of(after[a]) != #[trigger] pair_of(after[b]) by {
        assert(pair_of(releases[a]) != pair_of(releases[b]));
    }
    lemma_known(releases);
    lemma_known(after);
    let expected = known(releases).insert(x, provider::requirements_of(new.dependencies@));
    assert forall|y: (P::V, VS::V)| #[trigger] known(after).dom().contains(y)
        == expected.dom().contains(y) && (expected.dom().contains(y) ==> known(after)[y]
        == expected[y]) by {
        if known(after).dom().contains(y) {
            let j = choose|j: int|
                0 <= j < after.len() && #[trigger] pair_of(after[j]) == y;
            assert(known(releases).dom().contains(pair_of(releases[j])));
        }
        if expected.dom().contains(y) {
            if y == x {
                assert(pair_of(after[i]) == y);
            } else {
                let j = choose|j: int|
                    0 <= j < releases.len() && #[trigger] pair_of(releases[j]) == y;
                assert(pair_of(releases[j]) == y);
                assert(pair_of(after[j]) == y);
            }
        }
    }
    assert(known(after) =~= expected);
}

fn duplicate_constraints<P: Package, VS: VersionSet>(
    constraints: &DependencyConstraints<P, VS>,
) -> (r: DependencyConstraints<P, VS>)
    ensures
        provider::requirements_of(r@) == provider::requirements_of(constraints@),
{
    let list = constraints.iter();
    let mut copy: Vec<(P, VS)> = Vec::new();
    let mut i: usize = 0;
    while i < list.len()
        invariant
            i <= list@.len(),
            copy@.len() == i,
            forall|j: int|
                0 <= j < i ==> (#[trigger] copy@[j]).0@ == list@[j].0@ && copy@[j].1@
                    == list@[j].1@,
        decreases list@.len() - i,
    {
        copy.push((list[i].0.duplicate(), list[i].1.duplicate()));
        i += 1;
    }
    assert(provider::requirements_of(copy@) =~= provider::requirements_of(list@));
    DependencyConstraints::from_vec(copy)
}

impl<P: Package, VS: VersionSet> OfflineDependencyProvider<P, VS> {
    #[verifier::type_invariant]
    spec fn inv(self) -> bool {
        each_once(self.releases@)
    }

    /// The package versions that the provider knows, with what they require.
    pub closed spec fn view(self) -> Map<(P::V, VS::V), Seq<(P::V, Set<VS::V>)>> {
        known(self.releases@)
    }

    /// The versions in the set at which the package is offered.
    pub open spec fn versions_in(self, k: P::V, set: Set<VS::V>) -> Set<VS::V> {
        Set::new(|v: VS::V| set.contains(v) && self@.dom().contains((k, v)))
    }

    /// A provider that does not know any package.
    pub fn new() -> (r: Self)
        ensures
            r@ == Map::<(P::V, VS::V), Seq<(P::V, Set<VS::V>)>>::empty(),
    {
        OfflineDependencyProvider { releases: Vec::new() }
    }

    /// Where the release of the package version is.
    fn find(&self, package: &P, version: &VS::V) -> (r: Option<usize>)
        ensures
            match r {
                Some(i) => i < self.releases@.len() && self.releases@[i as int].package@ == package@
                    && self.releases@[i as int].version == *version,
                None => forall|i: int|
                    0 <= i < self.releases@.len() ==> #[trigger] pair_of(self.releases@[i]) != (package@, *version),
            },
    {
        let mut i: usize = 0;
        while i < self.releases.len()
            invariant
                i <= self.releases@.len(),
                forall|j: int|
                    0 <= j < i ==> #[trigger] pair_of(self.releases@[j]) != (package@, *version),
            decreases self.releases@.len() - i,
        {
            if self.releases[i].package.same(package) && version::same_version(
                &self.releases[i].version,
                version,
            ) {
                return Some(i);
            }
            i += 1;
        }
        None
    }

    /// Registers the dependencies of a package version. Dependencies must be added with a single
    /// call: what was registered for the same package version before is replaced.
    pub fn add_dependencies(&mut self, package: P, version: VS::V, dependencies: Vec<(P, VS)>)
        ensures
            final(self)@ == old(self)@.insert(
                (package@, version),
                provider::requirements_of(dependencies@),
            ),
    {
        proof {
            use_type_invariant(&*self);
        }
        let found = self.find(&package, &version);
        let release = Release {
            package,
            version,
            dependencies: DependencyConstraints::from_vec(dependencies),
        };
        let mut releases: Vec<Release<P, VS>> = Vec::new();
        std::mem::swap(&mut releases, &mut self.releases);
        let ghost before = releases@;
        match found {
            Some(i) => {
                proof {
                    lemma_known_update(before, i as int, release);
                }
                releases.set(i, release);
            },
            None => {
                releases.push(release);
                proof {
                    assert(releases@.drop_last() =~= before);
                    assert forall|a: int, b: int|
                        0 <= a < releases@.len() && 0 <= b < releases@.len() && a
                            != b implies #[trigger] pair_of(releases@[a]) != #[trigger] pair_of(releases@[b]) by {
                        assert(a < before.len() ==> pair_of(before[a]) == pair_of(releases@[a]));
                        assert(b < before.len() ==> pair_of(before[b]) == pair_of(releases@[b]));
                    }
                }
            },
        }
        self.releases = releases;
    }
}

impl<P: Package, VS: VersionSet> DependencyProvider for OfflineDependencyProvider<P, VS> {
    type P = P;

    type VS = VS;

    type Priority = (u32, usize);

    type M = String;

    type Err = Infallible;

    open spec fn offers(&self, package: P::V, version: VS::V) -> bool {
        self@.dom().contains((package, version))
    }

    open spec fn requirements(&self, package: P::V, version: VS::V) -> Option<
        Seq<(P::V, Set<VS::V>)>,
    > {
        self@.get((package, version))
    }

    open spec fn conflicts(&self, package: P::V, version: VS::V) -> Seq<Clause<P::V, VS::V>> {
        Seq::empty()
    }

    /// Packages with more conflicts come first, then those with fewer versions in the range. A
    /// package without any version in the range comes before all others.
    open spec fn priority(
        &self,
        package: P::V,
        range: Set<VS::V>,
        counts: (u32, u32, u32, u32),
    ) -> (u32, usize) {
        let offered = self.versions_in(package, range).len();
        let total = counts.0 + counts.1 + counts.2 + counts.3;
        if offered == 0 {
            (u32::MAX, usize::MAX)
        } else if total <= u32::MAX {
            (total as u32, (usize::MAX - offered) as usize)
        } else {
            (u32::MAX, (usize::MAX - offered) as usize)
        }
    }

    open spec fn may_fail(&self) -> bool {
        false
    }

    proof fn offers_are_finite(&self) {
        lemma_known_finite(self.releases@);
        assert(Set::new(|pair: (P::V, VS::V)| self.offers(pair.0, pair.1)) =~= self@.dom());
    }

    /// Packages with more conflicts come first, then those with fewer versions in the range. A
    /// package without any version in the range comes before all others.
    fn prioritize(
        &self,
        package: &P,
        range: &VS,
        package_conflicts_counts: &PackageResolutionStatistics,
    ) -> (r: (u32, usize))
    {
        proof {
            use_type_invariant(self);
            lemma_known(self.releases@);
        }
        let mut count: usize = 0;
        let ghost mut seen = Set::<VS::V>::empty();
        let mut i: usize = 0;
        while i < self.releases.len()
            invariant
                each_once(self.releases@),
                count <= i <= self.releases@.len(),
                seen.finite(),
                seen.len() == count,
                forall|v: VS::V| #[trigger]
                    seen.contains(v) <==> range@.contains(v) && exists|j: int|
                        0 <= j < i && #[trigger] pair_of(self.releases@[j]) == (package@, v),
            decreases self.releases@.len() - i,
        {
            let ghost before = seen;
            let ghost new = self.releases@[i as int].version;
            let ghost pair = pair_of(self.releases@[i as int]);
            if self.releases[i].package.same(package) && range.contains(&self.releases[i].version) {
                count += 1;
                proof {
                    assert(!seen.contains(new)) by {
                        if seen.contains(new) {
                            let j = choose|j: int|
                                0 <= j < i && #[trigger] pair_of(self.releases@[j]) == (
                                    package@,
                                    new,
                                );
                            assert(pair_of(self.releases@[j]) != pair);
                        }
                    }
                    seen = seen.insert(new);
                }
            }
            proof {
                assert forall|v: VS::V| #[trigger] seen.contains(v) <==> range@.contains(v)
                    && exists|j: int|
                    0 <= j < i + 1 && #[trigger] pair_of(self.releases@[j]) == (package@, v) by {
                    assert(before.contains(v) <==> range@.contains(v) && exists|j: int|
                        0 <= j < i && #[trigger] pair_of(self.releases@[j]) == (package@, v));
                    if before.contains(v) {
                        let j = choose|j: int|
                            0 <= j < i && #[trigger] pair_of(self.releases@[j]) == (package@, v);
                        assert(pair_of(self.releases@[j]) == (package@, v));
                    }
                    if range@.contains(v) && exists|j: int|
                        0 <= j < i + 1 && #[trigger] pair_of(self.releases@[j]) == (package@, v) {
                        let j = choose|j: int|
                            0 <= j < i + 1 && #[trigger] pair_of(self.releases@[j]) == (
                                package@,
                                v,
                            );
                        if j < i {
                            assert(pair_of(self.releases@[j]) == (package@, v));
                            assert(before.contains(v));
                        }
                    }
                    if pair == (package@, v) {
                        assert(pair_of(self.releases@[i as int]) == (package@, v));
                    }
                }
            }
            i += 1;
        }
        proof {
            let offered = self.versions_in(package@, range@);
            assert forall|v: VS::V| seen.contains(v) <==> offered.contains(v) by {
                if seen.contains(v) {
                    let j = choose|j: int|
                        0 <= j < i && #[trigger] pair_of(self.releases@[j]) == (package@, v);
                    assert(self@.dom().contains(pair_of(self.releases@[j])));
                }
                if offered.contains(v) {
                    let j = choose|j: int|
                        0 <= j < self.releases@.len() && #[trigger] pair_of(self.releases@[j]) == (
                            package@,
                            v,
                        );
                    assert(pair_of(self.releases@[j]) == (package@, v));
                }
            }
            assert(seen =~= offered);
        }
        if count == 0 {
            (u32::MAX, usize::MAX)
        } else {
            (package_conflicts_counts.saturating_conflict_count(), usize::MAX - count)
        }
    }

    /// The highest version in the range.
    fn choose_version(&self, package: &P, range: &VS) -> (r: Result<Option<VS::V>, Infallible>)
        ensures
            r matches Ok(Some(v)) ==> forall|w: VS::V| #[trigger]
                range@.contains(w) && self.offers(package@, w) ==> w.at_most_spec(v),
    {
        proof {
            use_type_invariant(self);
            lemma_known(self.releases@);
        }
        let mut best: Option<usize> = None;
        let mut i: usize = 0;
        while i < self.releases.len()
            invariant
                i <= self.releases@.len(),
                match best {
                    Some(b) => {
                        &&& b < i
                        &&& self.releases@[b as int].package@ == package@
                        &&& range@.contains(self.releases@[b as int].version)
                        &&& forall|j: int|
                            0 <= j < i && (#[trigger] self.releases@[j]).package@ == package@
                                && range@.contains(self.releases@[j].version)
                                ==> self.releases@[j].version.at_most_spec(
                                self.releases@[b as int].version,
                            )
                    },
                    None => forall|j: int|
                        0 <= j < i && (#[trigger] self.releases@[j]).package@ == package@
                            ==> !range@.contains(self.releases@[j].version),
                },
            decreases self.releases@.len() - i,
        {
            if self.releases[i].package.same(package) && range.contains(&self.releases[i].version) {
                let ghost new = self.releases@[i as int].version;
                match best {
                    Some(b) => {
                        let ghost top = self.releases@[b as int].version;
                        proof {
                            VS::V::order_is_total(new, top);
                        }
                        if !self.releases[i].version.at_most(&self.releases[b].version) {
                            best = Some(i);
                            proof {
                                VS::V::order_is_total(new, new);
                                assert forall|j: int|
                                    0 <= j < i && (#[trigger] self.releases@[j]).package@
                                        == package@ && range@.contains(
                                        self.releases@[j].version,
                                    ) implies self.releases@[j].version.at_most_spec(new) by {
                                    VS::V::order_is_transitive(
                                        self.releases@[j].version,
                                        top,
                                        new,
                                    );
                                }
                            }
                        }
                    },
                    None => {
                        best = Some(i);
                        proof {
                            VS::V::order_is_total(new, new);
                        }
                    },
                }
            }
            i += 1;
        }
        match best {
            Some(b) => {
                let version = self.releases[b].version.duplicate();
                proof {
                    assert(self@.dom().contains(
                        pair_of(self.releases@[b as int]),
                    ));
                    assert forall|w: VS::V| #[trigger] range@.contains(w) && self.offers(
                        package@,
                        w,
                    ) implies w.at_most_spec(version) by {
                        let j = choose|j: int|
                            0 <= j < self.releases@.len() && #[trigger] pair_of(self.releases@[j]) == (package@, w);
                        assert(self.releases@[j].package@ == package@);
                    }
                }
                Ok(Some(version))
            },
            None => {
                proof {
                    assert forall|v: VS::V| #[trigger] range@.contains(v) implies !self.offers(
                        package@,
                        v,
                    ) by {
                        if self.offers(package@, v) {
                            let j = choose|j: int|
                                0 <= j < self.releases@.len() && #[trigger] pair_of(self.releases@[j]) == (package@, v);
                            assert(self.releases@[j].package@ == package@);
                        }
                    }
                }
                Ok(None)
            },
        }
    }

    fn get_dependencies(&self, package: &P, version: &VS::V) -> (r: Result<
        Dependencies<P, VS, String>,
        Infallible,
    >) {
        proof {
            use_type_invariant(self);
            lemma_known(self.releases@);
        }
        match self.find(package, version) {
            Some(i) => {
                assert(self@.dom().contains(
                    pair_of(self.releases@[i as int]),
                ));
                Ok(Dependencies::Available(duplicate_constraints(&self.releases[i].dependencies)))
            },
            None => {
                proof {
                    if self@.dom().contains((package@, *version)) {
                        let j = choose|j: int|
                            0 <= j < self.releases@.len() && #[trigger] pair_of(self.releases@[j]) == (package@, *version);
                    }
                }
                Ok(Dependencies::Unavailable("its dependencies could not be determined".to_owned()))
            },
        }
    }

    proof fn declarations_are_conflicts(
        &self,
        package: &P,
        version: &VS::V,
        constraints: IncompatibilityConstraints<P, VS, String>,
    ) {
        assert(provider::clauses(constraints@) =~= Seq::empty());
    }
}

} // verus!
