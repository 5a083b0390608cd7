//! Finite sets that the enumerations exhaust.

use vstd::prelude::*;
use vstd::set_lib::*;

use crate::problem::{Key, VersionOf};
use crate::provider::DependencyProvider;

verus! {

/// The sequences of the given length over the set.
pub open spec fn rows<T>(set: Set<T>, n: nat) -> Set<Seq<T>> {
    Set::new(
        |row: Seq<T>|
            row.len() == n && forall|i: int| 0 <= i < row.len() ==> set.contains(#[trigger] row[i]),
    )
}

/// The sequences that continue one of the first set by an element of the second one.
spec fn longer_rows<T>(shorter: Set<Seq<T>>, set: Set<T>) -> Set<Seq<T>> {
    Set::new(
        |row: Seq<T>|
            row.len() > 0 && shorter.contains(row.drop_last()) && set.contains(row.last()),
    )
}

proof fn lemma_longer_rows_finite<T>(shorter: Set<Seq<T>>, set: Set<T>)
    requires
        shorter.finite(),
        set.finite(),
    ensures
        longer_rows(shorter, set).finite(),
    decreases set.len(),
{
    if set.len() == 0 {
        assert(longer_rows(shorter, set) =~= Set::empty());
    } else {
        let x = set.choose();
        let rest = set.remove(x);
        lemma_longer_rows_finite(shorter, rest);
        let push = |row: Seq<T>| row.push(x);
        shorter.lemma_map_finite(push);
        let both = longer_rows(shorter, rest).union(shorter.map(push));
        assert forall|row: Seq<T>| #[trigger] longer_rows(shorter, set).contains(
            row,
        ) implies both.contains(row) by {
            if row.last() == x {
                assert(row =~= push(row.drop_last()));
            }
        }
        lemma_set_subset_finite(both, longer_rows(shorter, set));
    }
}

pub proof fn lemma_rows_finite<T>(set: Set<T>, n: nat)
    requires
        set.finite(),
    ensures
        rows(set, n).finite(),
    decreases n,
{
    if n == 0 {
        let only = Set::empty().insert(Seq::<T>::empty());
        assert forall|row: Seq<T>| #[trigger] rows(set, 0).contains(row) implies only.contains(
            row,
        ) by {
            assert(row =~= Seq::<T>::empty());
        }
        lemma_set_subset_finite(only, rows(set, 0));
    } else {
        let shorter = rows(set, (n - 1) as nat);
        lemma_rows_finite(set, (n - 1) as nat);
        lemma_longer_rows_finite(shorter, set);
        assert forall|row: Seq<T>| #[trigger] rows(set, n).contains(row) implies longer_rows(
            shorter,
            set,
        ).contains(row) by {
            let init = row.drop_last();
            assert forall|i: int| 0 <= i < init.len() implies set.contains(#[trigger] init[i]) by {
                assert(init[i] == row[i]);
            }
            assert(set.contains(row[row.len() - 1]));
        }
        lemma_set_subset_finite(longer_rows(shorter, set), rows(set, n));
    }
}

/// The versions that some package is offered at.
pub open spec fn offered_versions<DP: DependencyProvider>(dp: DP) -> Set<VersionOf<DP>> {
    Set::new(|v: VersionOf<DP>| exists|k: Key<DP>| #[trigger] dp.offers(k, v))
}

pub proof fn lemma_offered_versions_finite<DP: DependencyProvider>(dp: DP)
    ensures
        offered_versions(dp).finite(),
{
    let pairs = Set::new(|pair: (Key<DP>, VersionOf<DP>)| dp.offers(pair.0, pair.1));
    dp.offers_are_finite();
    let second = |pair: (Key<DP>, VersionOf<DP>)| pair.1;
    pairs.lemma_map_finite(second);
    assert forall|v: VersionOf<DP>| #[trigger] offered_versions(dp).contains(
        v,
    ) implies pairs.map(second).contains(v) by {
        let k = choose|k: Key<DP>| #[trigger] dp.offers(k, v);
        assert(pairs.contains((k, v)));
        assert(second((k, v)) == v);
    }
    lemma_set_subset_finite(pairs.map(second), offered_versions(dp));
}

/// The states of the packages, in order.
pub open spec fn states_of<K, V>(packages: Seq<K>, s: Map<K, V>) -> Seq<Option<V>> {
    Seq::new(packages.len(), |i: int| s.get(packages[i]))
}

/// The states of a package: absent, or at a version that some package is offered at.
pub open spec fn possible_states<V>(versions: Set<V>) -> Set<Option<V>> {
    Set::new(|x: Option<V>| x is Some ==> versions.contains(x->0))
}

pub proof fn lemma_possible_states_finite<V>(versions: Set<V>)
    requires
        versions.finite(),
    ensures
        possible_states(versions).finite(),
{
    let some = |v: V| Some(v);
    versions.lemma_map_finite(some);
    let all = versions.map(some).insert(None);
    assert forall|x: Option<V>| #[trigger] possible_states(versions).contains(
        x,
    ) implies all.contains(x) by {
        if x is Some {
            assert(some(x->0) == x);
        }
    }
    lemma_set_subset_finite(all, possible_states(versions));
}

/// The versions with a greater number, or more than there are for a package that is absent.
pub open spec fn room<V>(versions: Set<V>, number: spec_fn(V) -> int, x: Option<V>) -> nat {
    match x {
        Some(v) => versions.filter(|w: V| number(w) > number(v)).len(),
        None => versions.len() + 1,
    }
}

/// How far the first `n` packages can still climb.
pub open spec fn room_left<K, V>(
    versions: Set<V>,
    number: spec_fn(V) -> int,
    packages: Seq<K>,
    s: Map<K, V>,
    n: int,
) -> nat
    decreases n,
{
    if n <= 0 {
        0
    } else {
        room_left(versions, number, packages, s, n - 1) + room(
            versions,
            number,
            s.get(packages[n - 1]),
        )
    }
}

proof fn lemma_room<V>(versions: Set<V>, number: spec_fn(V) -> int, low: Option<V>, high: V)
    requires
        versions.finite(),
        versions.contains(high),
        low matches Some(v) ==> number(high) >= number(v),
    ensures
        room(versions, number, Some(high)) <= room(versions, number, low),
        low is None ==> room(versions, number, Some(high)) < room(versions, number, low),
        low is Some && number(high) > number(low->0) ==> room(versions, number, Some(high)) < room(
            versions,
            number,
            low,
        ),
{
    let above_high = versions.filter(|w: V| number(w) > number(high));
    lemma_set_subset_finite(versions, above_high);
    match low {
        None => {
            lemma_len_subset(above_high, versions);
        },
        Some(v) => {
            let above_low = versions.filter(|w: V| number(w) > number(v));
            lemma_set_subset_finite(versions, above_low);
            assert(above_high.subset_of(above_low));
            lemma_len_subset(above_high, above_low);
            if number(high) > number(v) {
                assert(above_low.contains(high) && !above_high.contains(high));
                above_high.lemma_subset_not_in_lt(above_low, high);
            }
        },
    }
}

/// A step up leaves less room.
pub proof fn lemma_room_left<K, V>(
    versions: Set<V>,
    number: spec_fn(V) -> int,
    packages: Seq<K>,
    s: Map<K, V>,
    other: Map<K, V>,
    n: int,
)
    requires
        versions.finite(),
        0 <= n <= packages.len(),
        forall|k: K| #[trigger] other.dom().contains(k) ==> versions.contains(other[k]),
        forall|k: K| #[trigger]
            s.dom().contains(k) && packages.contains(k) ==> other.dom().contains(k) && number(
                other[k],
            ) >= number(s[k]),
    ensures
        room_left(versions, number, packages, other, n) <= room_left(
            versions,
            number,
            packages,
            s,
            n,
        ),
        (exists|i: int|
            0 <= i < n && s.dom().contains(#[trigger] packages[i]) && number(other[packages[i]])
                > number(s[packages[i]])) ==> room_left(versions, number, packages, other, n)
            < room_left(versions, number, packages, s, n),
    decreases n,
{
    if n > 0 {
        lemma_room_left(versions, number, packages, s, other, n - 1);
        let k = packages[n - 1];
        assert(packages.contains(k));
        if other.dom().contains(k) {
            lemma_room(versions, number, s.get(k), other[k]);
        } else {
            assert(!s.dom().contains(k));
        }
    }
}

} // verus!
