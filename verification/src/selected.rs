//! The outcome of a resolution.

use vstd::prelude::*;
use vstd::std_specs::cmp::PartialEqSpecImpl;

use crate::package::Package;
use crate::version;
use crate::version::Version;

verus! {

/// The last version that the list gives for each package.
pub open spec fn pairs_map<P: Package, V>(pairs: Seq<(P, V)>) -> Map<P::V, V>
    decreases pairs.len(),
{
    if pairs.len() == 0 {
        Map::empty()
    } else {
        pairs_map(pairs.drop_last()).insert(pairs.last().0@, pairs.last().1)
    }
}

/// What the list tells of packages.
pub open spec fn keyed<P: Package, V>(pairs: Seq<(P, V)>) -> Seq<(P::V, V)> {
    Seq::new(pairs.len(), |i: int| (pairs[i].0@, pairs[i].1))
}

/// The list speaks of the package.
pub open spec fn lists<K, V>(list: Seq<(K, V)>, k: K) -> bool {
    exists|j: int| 0 <= j < list.len() && (#[trigger] list[j]).0 == k
}

/// The last pair of each package from `n` on, the last one first.
pub open spec fn last_of_each<K, V>(list: Seq<(K, V)>, n: int) -> Seq<(K, V)>
    decreases list.len() - n,
{
    if n >= list.len() {
        Seq::empty()
    } else {
        let later = last_of_each(list, n + 1);
        if lists(later, list[n].0) {
            later
        } else {
            later.push(list[n])
        }
    }
}

proof fn lemma_keyed_map<P: Package, V>(a: Seq<(P, V)>, b: Seq<(P, V)>)
    requires
        keyed(a) == keyed(b),
    ensures
        pairs_map(a) == pairs_map(b),
    decreases a.len(),
{
    assert(keyed(a).len() == a.len() && keyed(b).len() == b.len());
    if a.len() > 0 {
        assert(keyed(a).last() == keyed(b).last());
        assert(keyed(a.drop_last()) =~= keyed(a).drop_last());
        assert(keyed(b.drop_last()) =~= keyed(b).drop_last());
        lemma_keyed_map(a.drop_last(), b.drop_last());
    }
}

/// No package occurs twice in the list.
pub open spec fn pairs_distinct<P: Package, V>(pairs: Seq<(P, V)>) -> bool {
    forall|i: int, j: int|
        0 <= i < pairs.len() && 0 <= j < pairs.len() && i != j ==> (#[trigger] pairs[i]).0@ != (
        #[trigger] pairs[j]).0@
}

/// The list gives exactly the versions of the packages in it.
pub proof fn lemma_pairs_map<P: Package, V>(pairs: Seq<(P, V)>)
    ensures
        forall|k: P::V| #[trigger]
            pairs_map(pairs).dom().contains(k) ==> exists|i: int|
                0 <= i < pairs.len() && (#[trigger] pairs[i]).0@ == k && pairs[i].1 == pairs_map(
                    pairs,
                )[k],
        forall|i: int|
            0 <= i < pairs.len() ==> pairs_map(pairs).dom().contains((#[trigger] pairs[i]).0@),
        pairs_distinct(pairs) ==> forall|i: int|
            0 <= i < pairs.len() ==> pairs_map(pairs)[(#[trigger] pairs[i]).0@] == pairs[i].1,
    decreases pairs.len(),
{
    if pairs.len() > 0 {
        let before = pairs.drop_last();
        lemma_pairs_map(before);
        let n = before.len() as int;
        assert forall|k: P::V| #[trigger] pairs_map(pairs).dom().contains(k) implies exists|i: int|
            0 <= i < pairs.len() && (#[trigger] pairs[i]).0@ == k && pairs[i].1 == pairs_map(
                pairs,
            )[k] by {
            if k == pairs.last().0@ {
                assert(pairs[n].0@ == k);
            } else {
                assert(pairs_map(before).dom().contains(k));
                let i = choose|i: int|
                    0 <= i < before.len() && (#[trigger] before[i]).0@ == k && before[i].1
                        == pairs_map(before)[k];
                assert(pairs[i] == before[i]);
            }
        }
        assert forall|i: int| 0 <= i < pairs.len() implies pairs_map(pairs).dom().contains(
            (#[trigger] pairs[i]).0@,
        ) by {
            if i < n {
                assert(before[i] == pairs[i]);
            }
        }
        if pairs_distinct(pairs) {
            assert(pairs_distinct(before)) by {
                assert forall|i: int, j: int|
                    0 <= i < before.len() && 0 <= j < before.len() && i != j implies (
                #[trigger] before[i]).0@ != (#[trigger] before[j]).0@ by {
                    assert(pairs[i].0@ != pairs[j].0@);
                }
            }
            assert forall|i: int| 0 <= i < pairs.len() implies pairs_map(pairs)[(
            #[trigger] pairs[i]).0@] == pairs[i].1 by {
                if i < n {
                    assert(before[i] == pairs[i]);
                    assert(pairs[i].0@ != pairs[n].0@);
                }
            }
        }
    }
}

/// The resolved dependencies and their versions.
#[derive(Debug)]
pub struct SelectedDependencies<P: Package, V>(Vec<(P, V)>);

/// All Pareto-maximal solutions returned by
/// [`resolve_maximal_solutions`](crate::resolve_maximal_solutions).
pub type MaximalSolutions<P, V> = Vec<SelectedDependencies<P, V>>;

impl<P: Package, V> SelectedDependencies<P, V> {
    #[verifier::type_invariant]
    spec fn each_once(self) -> bool {
        pairs_distinct(self.0@)
    }

    /// The versions of the selected packages.
    pub closed spec fn view(self) -> Map<P::V, V> {
        pairs_map(self.0@)
    }

    /// The selected packages at their versions, as they are listed.
    pub closed spec fn listed(self) -> Seq<(P::V, V)> {
        keyed(self.0@)
    }

    /// The resolved dependencies with their versions, each package once.
    pub fn iter(&self) -> (r: &[(P, V)])
        ensures
            keyed(r@) == self.listed(),
            pairs_map(r@) == self@,
            pairs_distinct(r@),
    {
        proof {
            use_type_invariant(self);
        }
        self.0.as_slice()
    }

    /// The list tells what is selected.
    pub proof fn lemma_same_list(self, other: Self)
        requires
            self.listed() == other.listed(),
        ensures
            self@ == other@,
    {
        lemma_keyed_map(self.0@, other.0@);
    }

    /// What is listed is selected.
    pub proof fn lemma_listed(self, k: P::V)
        ensures
            self@.dom().contains(k) <==> lists(self.listed(), k),
    {
        lemma_pairs_map(self.0@);
        if self@.dom().contains(k) {
            let j = choose|j: int| 0 <= j < self.0@.len() && (#[trigger] self.0@[j]).0@ == k;
            assert(self.listed()[j].0 == k);
        }
        if lists(self.listed(), k) {
            let j = choose|j: int|
                0 <= j < self.listed().len() && (#[trigger] self.listed()[j]).0 == k;
            assert(self.0@[j].0@ == k);
        }
    }

    /// Get the version of a specific dependency.
    pub fn get(&self, package: &P) -> (r: Option<&V>)
        ensures
            match r {
                Some(v) => self@.get(package@) == Some(*v),
                None => self@.get(package@) is None,
            },
    {
        proof {
            use_type_invariant(self);
            lemma_pairs_map(self.0@);
        }
        let mut i: usize = 0;
        while i < self.0.len()
            invariant
                i <= self.0@.len(),
                pairs_distinct(self.0@),
                forall|j: int|
                    0 <= j < self.0@.len() ==> pairs_map(self.0@).dom().contains(
                        (#[trigger] self.0@[j]).0@,
                    ) && pairs_map(self.0@)[self.0@[j].0@] == self.0@[j].1,
                forall|j: int| 0 <= j < i ==> (#[trigger] self.0@[j]).0@ != package@,
            decreases self.0@.len() - i,
        {
            if self.0[i].0.same(package) {
                return Some(&self.0[i].1);
            }
            i += 1;
        }
        None
    }

    /// The packages of the list at the last version that it gives for each of them.
    pub fn from_vec(pairs: Vec<(P, V)>) -> (r: Self)
        ensures
            r@ == pairs_map(pairs@),
            r.listed() == last_of_each(keyed(pairs@), 0),
    {
        let mut rest = pairs;
        let mut kept: Vec<(P, V)> = Vec::new();
        let ghost all = pairs@;
        assert(keyed(kept@) =~= last_of_each(keyed(all), all.len() as int));
        assert(pairs_map(all) =~= pairs_map(all).union_prefer_right(pairs_map(kept@)));
        while rest.len() > 0
            invariant
                pairs_distinct(kept@),
                rest@.len() <= all.len(),
                rest@ == all.take(rest@.len() as int),
                keyed(kept@) == last_of_each(keyed(all), rest@.len() as int),
                pairs_map(all) == pairs_map(rest@).union_prefer_right(pairs_map(kept@)),
            decreases rest@.len(),
        {
            let ghost before = rest@;
            let ghost held = kept@;
            proof {
                lemma_pairs_map(held);
            }
            if let Some(pair) = rest.pop() {
                assert(rest@ =~= before.drop_last());
                let mut known = false;
                let mut i: usize = 0;
                while i < kept.len()
                    invariant
                        i <= kept@.len(),
                        kept@ == held,
                        known == exists|j: int|
                            0 <= j < i && (#[trigger] held[j]).0@ == pair.0@,
                    decreases kept@.len() - i,
                {
                    if kept[i].0.same(&pair.0) {
                        known = true;
                    }
                    i += 1;
                }
                let ghost k = pair.0@;
                let ghost v = pair.1;
                if !known {
                    kept.push(pair);
                }
                proof {
                    let n = rest@.len() as int;
                    let later = last_of_each(keyed(all), n + 1);
                    assert(keyed(all)[n] == (k, v));
                    assert(known == lists(later, k)) by {
                        if known {
                            let j = choose|j: int| 0 <= j < held.len() && (#[trigger] held[j]).0@ == k;
                            assert(later[j].0 == k);
                        }
                        if lists(later, k) {
                            let j = choose|j: int| 0 <= j < later.len() && (#[trigger] later[j]).0 == k;
                            assert(held[j].0@ == k);
                        }
                    }
                    if !known {
                        assert(keyed(kept@) =~= later.push((k, v)));
                    }
                    if known {
                        assert(pairs_map(held).dom().contains(k));
                        assert(pairs_map(before).union_prefer_right(pairs_map(held)) =~= pairs_map(
                            rest@,
                        ).union_prefer_right(pairs_map(kept@)));
                    } else {
                        assert(kept@.drop_last() =~= held);
                        assert(!pairs_map(held).dom().contains(k)) by {
                            if pairs_map(held).dom().contains(k) {
                                let j = choose|j: int|
                                    0 <= j < held.len() && (#[trigger] held[j]).0@ == k
                                        && held[j].1 == pairs_map(held)[k];
                                assert(held[j].0@ == k);
                            }
                        }
                        assert(pairs_map(before).union_prefer_right(pairs_map(held)) =~= pairs_map(
                            rest@,
                        ).union_prefer_right(pairs_map(kept@)));
                    }
                }
            }
        }
        assert(pairs_map(all) =~= pairs_map(kept@));
        SelectedDependencies(kept)
    }

    /// The resolved dependencies with their versions, each package once.
    pub fn into_vec(self) -> (r: Vec<(P, V)>)
        ensures
            pairs_map(r@) == self@,
            pairs_distinct(r@),
    {
        proof {
            use_type_invariant(&self);
        }
        self.0
    }
}

impl<P: Package, V: Version> SelectedDependencies<P, V> {
    /// Whether everything in this selection is in the other one.
    fn within(&self, other: &Self) -> (r: bool)
        ensures
            r == self@.submap_of(other@),
    {
        proof {
            use_type_invariant(self);
            lemma_pairs_map(self.0@);
        }
        let mut i: usize = 0;
        while i < self.0.len()
            invariant
                i <= self.0@.len(),
                forall|j: int|
                    0 <= j < self.0@.len() ==> self@.dom().contains((#[trigger] self.0@[j]).0@)
                        && self@[self.0@[j].0@] == self.0@[j].1,
                forall|j: int|
                    0 <= j < i ==> other@.get((#[trigger] self.0@[j]).0@) == Some(self.0@[j].1),
            decreases self.0@.len() - i,
        {
            let same = match other.get(&self.0[i].0) {
                Some(v) => version::same_version(v, &self.0[i].1),
                None => false,
            };
            if !same {
                return false;
            }
            i += 1;
        }
        proof {
            assert forall|k: P::V| #[trigger] self@.dom().contains(k) implies other@.dom().contains(
                k,
            ) && self@[k] == other@[k] by {
                let j = choose|j: int|
                    0 <= j < self.0@.len() && (#[trigger] self.0@[j]).0@ == k && self.0@[j].1
                        == pairs_map(self.0@)[k];
                assert(other@.get(self.0@[j].0@) == Some(self.0@[j].1));
            }
        }
        true
    }
}

impl<P: Package, V: Version> Clone for SelectedDependencies<P, V> {
    fn clone(&self) -> (r: Self)
        ensures
            r@ == self@,
    {
        proof {
            use_type_invariant(self);
        }
        let mut copy: Vec<(P, V)> = Vec::new();
        let ghost all = self.0@;
        assert(all.take(0) =~= Seq::empty());
        let mut i: usize = 0;
        while i < self.0.len()
            invariant
                i <= self.0@.len(),
                all == self.0@,
                pairs_distinct(all),
                copy@.len() == i,
                forall|j: int|
                    0 <= j < i ==> (#[trigger] copy@[j]).0@ == all[j].0@ && copy@[j].1 == all[j].1,
                pairs_map(copy@) == pairs_map(all.take(i as int)),
            decreases self.0@.len() - i,
        {
            let ghost before = copy@;
            copy.push((self.0[i].0.duplicate(), self.0[i].1.duplicate()));
            proof {
                assert(copy@.drop_last() =~= before);
                assert(all.take(i + 1).drop_last() =~= all.take(i as int));
            }
            i += 1;
        }
        proof {
            assert(all.take(i as int) =~= all);
            assert forall|a: int, b: int|
                0 <= a < copy@.len() && 0 <= b < copy@.len() && a != b implies (
            #[trigger] copy@[a]).0@ != (#[trigger] copy@[b]).0@ by {
                assert(all[a].0@ != all[b].0@);
            }
        }
        SelectedDependencies(copy)
    }
}

impl<P: Package, V: Version> PartialEq for SelectedDependencies<P, V> {
    /// Whether both select the same packages at the same versions.
    fn eq(&self, other: &Self) -> (r: bool) {
        let r = self.within(other) && other.within(self);
        proof {
            if r {
                assert(self@.dom() =~= other@.dom()) by {
                    assert forall|k: P::V| self@.dom().contains(k) <==> other@.dom().contains(
                        k,
                    ) by {}
                }
                assert forall|k: P::V| #[trigger] self@.dom().contains(k) implies self@[k]
                    == other@[k] by {}
                assert(self@ =~= other@);
            }
        }
        r
    }
}

impl<P: Package, V: Version> PartialEqSpecImpl for SelectedDependencies<P, V> {
    open spec fn obeys_eq_spec() -> bool {
        true
    }

    open spec fn eq_spec(&self, other: &Self) -> bool {
        self@ == other@
    }
}

impl<P: Package, V: Version> Eq for SelectedDependencies<P, V> {

}

} // verus!
