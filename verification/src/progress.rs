//! A measure by which every step of the search makes progress.
//!
//! The atoms of the base clauses divide the states of a package into finitely many patterns. Each
//! derivation removes a pattern from what its level leaves open, each decision opens a level, and
//! a backjump gives up levels only to remove a pattern on the one it returns to. Read as the digits
//! of a number, most significant level first, the patterns left open therefore always decrease.

use vstd::prelude::*;
use vstd::set_lib::*;

use crate::search;
use crate::search::{Clause, Entry};

verus! {

/// The patterns of the states in the set.
pub open spec fn patterns<K, V>(atoms: Clause<K, V>, k: K, set: Set<Option<V>>) -> Set<Seq<bool>> {
    Set::new(|p: Seq<bool>| exists|x: Option<V>| #[trigger]
        set.contains(x) && search::pattern(atoms, k, x) == p)
}

/// All patterns of the given length.
pub open spec fn all_patterns(n: nat) -> Set<Seq<bool>> {
    Set::new(|p: Seq<bool>| p.len() == n)
}

pub proof fn lemma_all_patterns_finite(n: nat)
    ensures
        all_patterns(n).finite(),
    decreases n,
{
    if n == 0 {
        let only = Set::empty().insert(Seq::<bool>::empty());
        assert forall|p: Seq<bool>| #[trigger] all_patterns(0).contains(p) implies only.contains(
            p,
        ) by {
            assert(p =~= Seq::<bool>::empty());
        }
        lemma_set_subset_finite(only, all_patterns(0));
    } else {
        let shorter = all_patterns((n - 1) as nat);
        lemma_all_patterns_finite((n - 1) as nat);
        let yes = |p: Seq<bool>| p.push(true);
        let no = |p: Seq<bool>| p.push(false);
        shorter.lemma_map_finite(yes);
        shorter.lemma_map_finite(no);
        let both = shorter.map(yes).union(shorter.map(no));
        assert forall|p: Seq<bool>| #[trigger] all_patterns(n).contains(p) implies both.contains(
            p,
        ) by {
            let init = p.drop_last();
            assert(shorter.contains(init));
            assert(p =~= init.push(p.last()));
            if p.last() {
                assert(yes(init) == p);
            } else {
                assert(no(init) == p);
            }
        }
        lemma_set_subset_finite(both, all_patterns(n));
    }
}

pub open spec fn width<K, V>(atoms: Clause<K, V>, k: K, set: Set<Option<V>>) -> nat {
    patterns(atoms, k, set).len()
}

pub proof fn lemma_width_shrink<K, V>(
    atoms: Clause<K, V>,
    k: K,
    smaller: Set<Option<V>>,
    larger: Set<Option<V>>,
)
    requires
        smaller.subset_of(larger),
    ensures
        width(atoms, k, smaller) <= width(atoms, k, larger),
        width(atoms, k, larger) <= all_patterns(atoms.len()).len(),
        search::respects(atoms, k, smaller) && smaller != larger ==> width(atoms, k, smaller) < width(
            atoms,
            k,
            larger,
        ),
{
    let a = patterns(atoms, k, smaller);
    let b = patterns(atoms, k, larger);
    lemma_all_patterns_finite(atoms.len());
    assert(b.subset_of(all_patterns(atoms.len())));
    lemma_set_subset_finite(all_patterns(atoms.len()), b);
    lemma_len_subset(b, all_patterns(atoms.len()));
    assert(a.subset_of(b));
    lemma_len_subset(a, b);
    if search::respects(atoms, k, smaller) && smaller != larger {
        assert(!(smaller =~= larger));
        let x = choose|x: Option<V>| larger.contains(x) && !smaller.contains(x);
        let p = search::pattern(atoms, k, x);
        assert(b.contains(p));
        assert(!a.contains(p)) by {
            if a.contains(p) {
                let y = choose|y: Option<V>| #[trigger]
                    smaller.contains(y) && search::pattern(atoms, k, y) == p;
                assert(smaller.contains(x) == smaller.contains(y));
            }
        }
        a.lemma_subset_not_in_lt(b, p);
    }
}

/// The number of patterns that the trail leaves open, over the packages of the first `n` atoms.
pub open spec fn left_open<K, V>(atoms: Clause<K, V>, trail: Seq<Entry<K, V>>, n: int) -> nat
    decreases n,
{
    if n <= 0 {
        0
    } else {
        left_open(atoms, trail, n - 1) + width(
            atoms,
            atoms[n - 1].0,
            search::open_states(trail, atoms[n - 1].0),
        )
    }
}

pub proof fn lemma_left_open_bound<K, V>(atoms: Clause<K, V>, trail: Seq<Entry<K, V>>, n: int)
    requires
        0 <= n <= atoms.len(),
    ensures
        left_open(atoms, trail, n) <= n * all_patterns(atoms.len()).len(),
    decreases n,
{
    let cap = all_patterns(atoms.len()).len();
    if n > 0 {
        lemma_left_open_bound(atoms, trail, n - 1);
        let set = search::open_states(trail, atoms[n - 1].0);
        lemma_width_shrink(atoms, atoms[n - 1].0, set, set);
        assert(n * cap == (n - 1) * cap + cap) by (nonlinear_arith);
    } else {
        assert(n * cap == 0) by (nonlinear_arith)
            requires
                n == 0,
        ;
    }
}

pub proof fn lemma_left_open_shrink<K, V>(
    atoms: Clause<K, V>,
    before: Seq<Entry<K, V>>,
    after: Seq<Entry<K, V>>,
    n: int,
    k: K,
)
    requires
        0 <= n <= atoms.len(),
        forall|q: K| #[trigger] search::open_states(after, q).subset_of(search::open_states(before, q)),
        search::respects(atoms, k, search::open_states(after, k)),
        search::open_states(after, k) != search::open_states(before, k),
    ensures
        left_open(atoms, after, n) <= left_open(atoms, before, n),
        (exists|i: int| 0 <= i < n && (#[trigger] atoms[i]).0 == k) ==> left_open(atoms, after, n)
            < left_open(atoms, before, n),
    decreases n,
{
    if n > 0 {
        lemma_left_open_shrink(atoms, before, after, n - 1, k);
        let q = atoms[n - 1].0;
        assert(search::open_states(after, q).subset_of(search::open_states(before, q)));
        lemma_width_shrink(atoms, q, search::open_states(after, q), search::open_states(before, q));
        if exists|i: int| 0 <= i < n && (#[trigger] atoms[i]).0 == k {
            let i = choose|i: int| 0 <= i < n && (#[trigger] atoms[i]).0 == k;
            if i < n - 1 {
                assert(exists|i: int| 0 <= i < n - 1 && (#[trigger] atoms[i]).0 == k);
            }
        }
    }
}

/// The trail without the entries above the level.
pub open spec fn cut<K, V>(trail: Seq<Entry<K, V>>, l: int) -> Seq<Entry<K, V>>
    decreases trail.len(),
{
    if trail.len() > 0 && trail.last().level > l {
        cut(trail.drop_last(), l)
    } else {
        trail
    }
}

pub proof fn lemma_cut<K, V>(
    atoms: Clause<K, V>,
    store: Seq<Clause<K, V>>,
    trail: Seq<Entry<K, V>>,
    l: int,
)
    requires
        search::trail_ok(atoms, store, trail),
        0 <= l,
    ensures
        cut(trail, l).len() <= trail.len(),
        cut(trail, l) == trail.take(cut(trail, l).len() as int),
        search::trail_ok(atoms, store, cut(trail, l)),
        search::level(trail) >= 0,
        l <= search::level(trail) ==> search::level(cut(trail, l)) == l,
        search::level(trail) <= l ==> cut(trail, l) == trail,
    decreases trail.len(),
{
    if trail.len() > 0 {
        let last = trail.len() - 1;
        let before = trail.drop_last();
        assert(before =~= trail.take(last));
        search::lemma_trail_take(atoms, store, trail, last);
        lemma_cut(atoms, store, before, l);
        search::lemma_trail_entry(atoms, store, trail, last);
        if trail.last().level > l {
            let n = cut(before, l).len() as int;
            assert(before.take(n) =~= trail.take(n));
        } else {
            assert(trail.take(trail.len() as int) =~= trail);
        }
    } else {
        assert(trail.take(0) =~= trail);
    }
}

pub proof fn lemma_levels<K, V>(
    atoms: Clause<K, V>,
    store: Seq<Clause<K, V>>,
    trail: Seq<Entry<K, V>>,
    i: int,
)
    requires
        search::trail_ok(atoms, store, trail),
        0 <= i < trail.len(),
    ensures
        0 <= trail[i].level <= search::level(trail),
    decreases trail.len(),
{
    let last = trail.len() - 1;
    let before = trail.drop_last();
    assert(before =~= trail.take(last));
    search::lemma_trail_take(atoms, store, trail, last);
    lemma_cut(atoms, store, before, 0);
    search::lemma_trail_entry(atoms, store, trail, last);
    if i < last {
        lemma_levels(atoms, store, before, i);
    }
}

/// Every entry that stays has a level of at most the cut, and every entry that goes has one above.
pub proof fn lemma_cut_levels<K, V>(
    atoms: Clause<K, V>,
    store: Seq<Clause<K, V>>,
    trail: Seq<Entry<K, V>>,
    l: int,
    i: int,
)
    requires
        search::trail_ok(atoms, store, trail),
        0 <= l,
        0 <= i < trail.len(),
    ensures
        i < cut(trail, l).len() <==> trail[i].level <= l,
    decreases trail.len(),
{
    let last = trail.len() - 1;
    let before = trail.drop_last();
    assert(before =~= trail.take(last));
    search::lemma_trail_take(atoms, store, trail, last);
    lemma_cut(atoms, store, before, l);
    lemma_levels(atoms, store, trail, i);
    if i < last {
        lemma_cut_levels(atoms, store, before, l, i);
    }
}

pub proof fn lemma_cut_cut<K, V>(trail: Seq<Entry<K, V>>, l: int, m: int)
    requires
        m <= l,
    ensures
        cut(cut(trail, l), m) == cut(trail, m),
    decreases trail.len(),
{
    if trail.len() > 0 && trail.last().level > l {
        lemma_cut_cut(trail.drop_last(), l, m);
    }
}

/// The packages decided on the trail, in order.
pub open spec fn decisions<K, V>(trail: Seq<Entry<K, V>>) -> Seq<K>
    decreases trail.len(),
{
    if trail.len() == 0 {
        Seq::empty()
    } else if trail.last().cause is None {
        decisions(trail.drop_last()).push(trail.last().key)
    } else {
        decisions(trail.drop_last())
    }
}

proof fn lemma_decisions<K, V>(
    atoms: Clause<K, V>,
    store: Seq<Clause<K, V>>,
    trail: Seq<Entry<K, V>>,
)
    requires
        search::trail_ok(atoms, store, trail),
    ensures
        decisions(trail).len() == search::level(trail),
        decisions(trail).no_duplicates(),
        forall|i: int|
            0 <= i < decisions(trail).len() ==> search::mentions(atoms, #[trigger] decisions(trail)[i])
                && search::decided(trail, decisions(trail)[i]),
    decreases trail.len(),
{
    if trail.len() > 0 {
        let last = trail.len() - 1;
        let before = trail.drop_last();
        let e = trail[last];
        assert(before =~= trail.take(last));
        search::lemma_trail_take(atoms, store, trail, last);
        lemma_decisions(atoms, store, before);
        search::lemma_trail_entry(atoms, store, trail, last);
        assert(trail =~= before.push(e));
        assert forall|i: int| 0 <= i < decisions(trail).len() implies search::mentions(
            atoms,
            #[trigger] decisions(trail)[i],
        ) && search::decided(trail, decisions(trail)[i]) by {
            search::lemma_decided_push(before, e, decisions(trail)[i]);
            if i < decisions(before).len() {
                assert(decisions(trail)[i] == decisions(before)[i]);
            }
        }
    }
}

/// There are no more levels than atoms.
pub proof fn lemma_level_bound<K, V>(
    atoms: Clause<K, V>,
    store: Seq<Clause<K, V>>,
    trail: Seq<Entry<K, V>>,
)
    requires
        search::trail_ok(atoms, store, trail),
    ensures
        0 <= search::level(trail) <= atoms.len(),
{
    lemma_decisions(atoms, store, trail);
    let ds = decisions(trail);
    let keys = atoms.map_values(|a: (K, Set<Option<V>>)| a.0);
    ds.unique_seq_to_set();
    keys.lemma_cardinality_of_set();
    assert forall|k: K| #[trigger] ds.to_set().contains(k) implies keys.to_set().contains(k) by {
        let i = choose|i: int| 0 <= i < ds.len() && ds[i] == k;
        assert(search::mentions(atoms, ds[i]));
        let j = choose|j: int| 0 <= j < atoms.len() && (#[trigger] atoms[j]).0 == k;
        assert(keys[j] == k);
    }
    vstd::seq_lib::seq_to_set_is_finite(keys);
    lemma_len_subset(ds.to_set(), keys.to_set());
}

/// A digit larger than any number of patterns left open.
pub open spec fn top_digit<K, V>(atoms: Clause<K, V>) -> nat {
    (atoms.len() * all_patterns(atoms.len()).len() + 1) as nat
}

pub open spec fn digit<K, V>(atoms: Clause<K, V>, trail: Seq<Entry<K, V>>, l: int) -> nat {
    if l <= search::level(trail) {
        left_open(atoms, cut(trail, l), atoms.len() as int)
    } else {
        top_digit(atoms)
    }
}

pub open spec fn digits<K, V>(atoms: Clause<K, V>, trail: Seq<Entry<K, V>>) -> Seq<nat> {
    Seq::new(atoms.len() + 1, |l: int| digit(atoms, trail, l))
}

/// The number written with the digits in the base.
pub open spec fn number(digits: Seq<nat>, base: nat) -> nat
    decreases digits.len(),
{
    if digits.len() == 0 {
        0
    } else {
        number(digits.drop_last(), base) * base + digits.last()
    }
}

proof fn lemma_number_less(s: Seq<nat>, t: Seq<nat>, base: nat, j: int)
    requires
        s.len() == t.len(),
        0 <= j < s.len(),
        forall|i: int| 0 <= i < j ==> s[i] == t[i],
        s[j] < t[j],
        forall|i: int| 0 <= i < s.len() ==> s[i] < base,
    ensures
        number(s, base) < number(t, base),
    decreases s.len(),
{
    let a = number(s.drop_last(), base);
    let b = number(t.drop_last(), base);
    if j == s.len() - 1 {
        assert(s.drop_last() =~= t.drop_last());
    } else {
        lemma_number_less(s.drop_last(), t.drop_last(), base, j);
        let last = s.last();
        assert(a * base + last < b * base) by (nonlinear_arith)
            requires
                a < b,
                last < base,
        ;
    }
}

/// How much of the search is left.
pub open spec fn remaining<K, V>(atoms: Clause<K, V>, trail: Seq<Entry<K, V>>) -> nat {
    number(digits(atoms, trail), top_digit(atoms) + 1)
}

proof fn lemma_digit_bound<K, V>(atoms: Clause<K, V>, trail: Seq<Entry<K, V>>, l: int)
    ensures
        digit(atoms, trail, l) < top_digit(atoms) + 1,
        l <= search::level(trail) ==> digit(atoms, trail, l) < top_digit(atoms),
{
    lemma_left_open_bound(atoms, cut(trail, l), atoms.len() as int);
}

proof fn lemma_cut_push<K, V>(trail: Seq<Entry<K, V>>, e: Entry<K, V>, m: int)
    ensures
        e.level <= m ==> cut(trail.push(e), m) == trail.push(e),
        e.level > m ==> cut(trail.push(e), m) == cut(trail, m),
{
    assert(trail.push(e).drop_last() =~= trail);
}

pub proof fn lemma_open_states_push<K, V>(trail: Seq<Entry<K, V>>, e: Entry<K, V>, k: K)
    ensures
        search::open_states(trail.push(e), k) == if e.key == k {
            e.set
        } else {
            search::open_states(trail, k)
        },
{
    assert(trail.push(e).drop_last() =~= trail);
}

/// A derivation on some level, with the levels above given up, makes progress.
pub proof fn lemma_derivation_progress<K, V>(
    atoms: Clause<K, V>,
    store: Seq<Clause<K, V>>,
    trail: Seq<Entry<K, V>>,
    l: int,
    e: Entry<K, V>,
)
    requires
        search::trail_ok(atoms, store, trail),
        0 <= l <= search::level(trail),
        e.cause is Some,
        search::entry_ok(atoms, store, cut(trail, l), e),
    ensures
        remaining(atoms, cut(trail, l).push(e)) < remaining(atoms, trail),
        search::level(cut(trail, l).push(e)) == l,
{
    let base = cut(trail, l);
    let after = base.push(e);
    lemma_cut(atoms, store, trail, l);
    lemma_level_bound(atoms, store, trail);
    assert forall|q: K| #[trigger] search::open_states(after, q).subset_of(search::open_states(base, q)) by {
        lemma_open_states_push(base, e, q);
    }
    lemma_open_states_push(base, e, e.key);
    let c = e.cause->0;
    assert(e.set != search::open_states(base, e.key)) by {
        let x = choose|x: Option<V>|
            search::open_states(base, e.key).contains(x) && search::at(store[c], e.key).contains(x);
        assert(!e.set.contains(x));
    }
    assert(exists|i: int| 0 <= i < atoms.len() && (#[trigger] atoms[i]).0 == e.key);
    lemma_left_open_shrink(atoms, base, after, atoms.len() as int, e.key);
    let s = digits(atoms, after);
    let t = digits(atoms, trail);
    assert forall|m: int| 0 <= m < l implies s[m] == t[m] by {
        lemma_cut_push(base, e, m);
        lemma_cut_cut(trail, l, m);
    }
    lemma_cut_push(base, e, l);
    assert forall|i: int| 0 <= i < s.len() implies s[i] < top_digit(atoms) + 1 by {
        lemma_digit_bound(atoms, after, i);
    }
    lemma_number_less(s, t, top_digit(atoms) + 1, l);
}

/// A decision makes progress.
pub proof fn lemma_decision_progress<K, V>(
    atoms: Clause<K, V>,
    store: Seq<Clause<K, V>>,
    trail: Seq<Entry<K, V>>,
    e: Entry<K, V>,
)
    requires
        search::trail_ok(atoms, store, trail),
        e.cause is None,
        search::entry_ok(atoms, store, trail, e),
    ensures
        remaining(atoms, trail.push(e)) < remaining(atoms, trail),
        search::level(trail.push(e)) == search::level(trail) + 1,
{
    let after = trail.push(e);
    search::lemma_trail_push(atoms, store, trail, e);
    lemma_level_bound(atoms, store, after);
    lemma_level_bound(atoms, store, trail);
    let l = search::level(after);
    let s = digits(atoms, after);
    let t = digits(atoms, trail);
    assert forall|m: int| 0 <= m < l implies s[m] == t[m] by {
        lemma_cut_push(trail, e, m);
    }
    assert forall|i: int| 0 <= i < s.len() implies s[i] < top_digit(atoms) + 1 by {
        lemma_digit_bound(atoms, after, i);
    }
    lemma_digit_bound(atoms, after, l);
    lemma_number_less(s, t, top_digit(atoms) + 1, l);
}

/// After a backjump below the entry that made the clause certain, the clause is certain up to the
/// part about that entry's package, which is open again.
pub proof fn lemma_backjump<K, V>(
    atoms: Clause<K, V>,
    store: Seq<Clause<K, V>>,
    trail: Seq<Entry<K, V>>,
    clause: Clause<K, V>,
    n: int,
    m: int,
    l: int,
)
    requires
        search::trail_ok(atoms, store, trail),
        search::clause_ok(atoms, clause),
        0 <= m < n <= trail.len(),
        search::satisfied(clause, trail.take(n)),
        !search::satisfied(clause, trail.take(n - 1)),
        search::satisfied_except(clause, trail.take(m), trail[n - 1].key),
        0 <= l,
        search::level(trail.take(m)) <= l < trail[n - 1].level,
    ensures
        search::mentions(clause, trail[n - 1].key),
        search::satisfied_except(clause, cut(trail, l), trail[n - 1].key),
        !search::open_states(cut(trail, l), trail[n - 1].key).subset_of(
            search::at(clause, trail[n - 1].key),
        ),
        !search::open_states(cut(trail, l), trail[n - 1].key).disjoint(
            search::at(clause, trail[n - 1].key),
        ),
        l < search::level(trail),
{
    let k = trail[n - 1].key;
    let kept = cut(trail, l);
    let before = trail.take(n - 1);
    let after = trail.take(n);
    lemma_cut(atoms, store, trail, l);
    lemma_cut_levels(atoms, store, trail, l, n - 1);
    lemma_levels(atoms, store, trail, n - 1);
    if m > 0 {
        assert(trail.take(m).last() == trail[m - 1]);
        lemma_cut_levels(atoms, store, trail, l, m - 1);
    }
    let len = kept.len() as int;
    assert(m <= len < n);
    assert(kept.take(m) =~= trail.take(m));
    search::lemma_satisfied_except_later(atoms, store, kept, clause, m, k);
    search::lemma_trail_take(atoms, store, trail, n - 1);
    search::lemma_trail_take(atoms, store, trail, n);
    assert(before.take(m) =~= trail.take(m));
    search::lemma_satisfied_except_later(atoms, store, before, clause, m, k);
    search::lemma_satisfied_at(clause, before, k);
    search::lemma_satisfied_at(clause, after, k);
    assert(before.take(len) =~= kept);
    assert(after.take(len) =~= kept);
    search::lemma_open_states_shrink(atoms, store, before, len, k);
    search::lemma_open_states_shrink(atoms, store, after, len, k);
    search::lemma_open_states_nonempty(atoms, store, after, k);
    let set = search::open_states(after, k);
    assert(exists|x: Option<V>| set.contains(x)) by {
        if forall|x: Option<V>| !set.contains(x) {
            assert(set =~= Set::empty());
        }
    }
    let x = choose|x: Option<V>| set.contains(x);
    assert(search::open_states(kept, k).contains(x) && search::at(clause, k).contains(x));
}

} // verus!
