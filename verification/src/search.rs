//! The mathematical model of the search: clauses, trails, and a measure of their progress.
//!
//! A clause forbids that all its parts hold at once. A trail narrows down, entry by entry, the
//! states that each package may be in; its entries are either decisions, which open a new level,
//! or derivations, which follow from a clause. Everything here is stated over package keys `K`,
//! versions `V` and package states `Option<V>`, where `None` is the absent package.

use vstd::prelude::*;

verus! {

/// A conjunction of package states, which no selection may satisfy.
pub type Clause<K, V> = Seq<(K, Set<Option<V>>)>;

/// Every part of the clause holds in the selection.
pub open spec fn violates<K, V>(clause: Clause<K, V>, s: Map<K, V>) -> bool {
    forall|i: int|
        0 <= i < clause.len() ==> (#[trigger] clause[i]).1.contains(s.get(clause[i].0))
}

pub proof fn lemma_violates_push<K, V>(
    clause: Clause<K, V>,
    part: (K, Set<Option<V>>),
    s: Map<K, V>,
)
    ensures
        violates(clause.push(part), s) <==> violates(clause, s) && part.1.contains(s.get(part.0)),
{
    let longer = clause.push(part);
    if violates(longer, s) {
        assert forall|i: int| 0 <= i < clause.len() implies (#[trigger] clause[i]).1.contains(
            s.get(clause[i].0),
        ) by {
            assert(longer[i] == clause[i]);
        }
        assert(longer[clause.len() as int] == part);
    }
    if violates(clause, s) && part.1.contains(s.get(part.0)) {
        assert forall|i: int| 0 <= i < longer.len() implies (#[trigger] longer[i]).1.contains(
            s.get(longer[i].0),
        ) by {
            if i < clause.len() {
                assert(longer[i] == clause[i]);
            }
        }
    }
}

pub proof fn lemma_violates_both<K, V>(a: Clause<K, V>, b: Clause<K, V>, s: Map<K, V>)
    ensures
        violates(a + b, s) <==> violates(a, s) && violates(b, s),
{
    let both = a + b;
    if violates(both, s) {
        assert forall|i: int| 0 <= i < a.len() implies (#[trigger] a[i]).1.contains(
            s.get(a[i].0),
        ) by {
            assert(both[i] == a[i]);
        }
        assert forall|i: int| 0 <= i < b.len() implies (#[trigger] b[i]).1.contains(
            s.get(b[i].0),
        ) by {
            assert(both[a.len() + i] == b[i]);
        }
    }
    if violates(a, s) && violates(b, s) {
        assert forall|i: int| 0 <= i < both.len() implies (#[trigger] both[i]).1.contains(
            s.get(both[i].0),
        ) by {
            if i < a.len() {
                assert(both[i] == a[i]);
            } else {
                assert(both[i] == b[i - a.len()]);
            }
        }
    }
}

/// No package occurs twice in the clause.
pub open spec fn distinct<K, V>(clause: Clause<K, V>) -> bool {
    forall|i: int, j: int|
        0 <= i < clause.len() && 0 <= j < clause.len() && i != j ==> (#[trigger] clause[i]).0 != (
        #[trigger] clause[j]).0
}

/// Some part of the clause is about the package.
pub open spec fn mentions<K, V>(clause: Clause<K, V>, k: K) -> bool {
    exists|i: int| 0 <= i < clause.len() && (#[trigger] clause[i]).0 == k
}

/// Some part of the clause is about the package, and not about all its states.
pub open spec fn speaks_of<K, V>(clause: Clause<K, V>, k: K) -> bool {
    exists|i: int|
        0 <= i < clause.len() && (#[trigger] clause[i]).0 == k && clause[i].1 != Set::<
            Option<V>,
        >::full()
}

/// The states of the package that the clause is about: all of them where it does not mention it.
pub open spec fn at<K, V>(clause: Clause<K, V>, k: K) -> Set<Option<V>> {
    if mentions(clause, k) {
        clause[choose|i: int| 0 <= i < clause.len() && (#[trigger] clause[i]).0 == k].1
    } else {
        Set::full()
    }
}

pub proof fn lemma_at<K, V>(clause: Clause<K, V>, i: int)
    requires
        distinct(clause),
        0 <= i < clause.len(),
    ensures
        mentions(clause, clause[i].0),
        at(clause, clause[i].0) == clause[i].1,
{
    assert(mentions(clause, clause[i].0));
}

/// A clause is violated exactly when each package is in the states that the clause is about.
pub proof fn lemma_violates_at<K, V>(clause: Clause<K, V>, s: Map<K, V>)
    requires
        distinct(clause),
    ensures
        violates(clause, s) <==> forall|k: K| #[trigger] at(clause, k).contains(s.get(k)),
{
    if violates(clause, s) {
        assert forall|k: K| #[trigger] at(clause, k).contains(s.get(k)) by {
            if mentions(clause, k) {
                let i = choose|i: int| 0 <= i < clause.len() && (#[trigger] clause[i]).0 == k;
                lemma_at(clause, i);
            }
        }
    }
    if forall|k: K| #[trigger] at(clause, k).contains(s.get(k)) {
        assert forall|i: int| 0 <= i < clause.len() implies (#[trigger] clause[i]).1.contains(
            s.get(clause[i].0),
        ) by {
            lemma_at(clause, i);
            assert(at(clause, clause[i].0).contains(s.get(clause[i].0)));
        }
    }
}

/// One step of a trail: the package is in one of these states.
#[verifier::reject_recursive_types(V)]
pub struct Entry<K, V> {
    pub key: K,
    pub set: Set<Option<V>>,
    pub cause: Option<int>,
    pub level: int,
}

/// Some step of the trail is about the package.
pub open spec fn assigned<K, V>(trail: Seq<Entry<K, V>>, k: K) -> bool {
    exists|i: int| 0 <= i < trail.len() && (#[trigger] trail[i]).key == k
}

/// The states that the trail leaves open for the package.
pub open spec fn open_states<K, V>(trail: Seq<Entry<K, V>>, k: K) -> Set<Option<V>>
    decreases trail.len(),
{
    if trail.len() == 0 {
        Set::full()
    } else if trail.last().key == k {
        trail.last().set
    } else {
        open_states(trail.drop_last(), k)
    }
}

/// The number of decisions on the trail.
pub open spec fn level<K, V>(trail: Seq<Entry<K, V>>) -> int {
    if trail.len() == 0 {
        0
    } else {
        trail.last().level
    }
}

/// A decision for the package is on the trail.
pub open spec fn decided<K, V>(trail: Seq<Entry<K, V>>, k: K) -> bool {
    exists|i: int|
        0 <= i < trail.len() && (#[trigger] trail[i]).key == k && trail[i].cause is None
}

/// Every part of the clause is certain on the trail.
pub open spec fn satisfied<K, V>(clause: Clause<K, V>, trail: Seq<Entry<K, V>>) -> bool {
    forall|i: int|
        0 <= i < clause.len() ==> open_states(trail, (#[trigger] clause[i]).0).subset_of(
            clause[i].1,
        )
}

/// The part is certain on the trail, given the state of one package.
pub open spec fn certain_given<K, V>(
    part: (K, Set<Option<V>>),
    trail: Seq<Entry<K, V>>,
    k: K,
    x: Option<V>,
) -> bool {
    if part.0 == k {
        part.1.contains(x)
    } else {
        open_states(trail, part.0).subset_of(part.1)
    }
}

/// Every part of the clause is certain on the trail, given the state of one package.
pub open spec fn satisfied_given<K, V>(
    clause: Clause<K, V>,
    trail: Seq<Entry<K, V>>,
    k: K,
    x: Option<V>,
) -> bool {
    forall|i: int| 0 <= i < clause.len() ==> certain_given(#[trigger] clause[i], trail, k, x)
}

/// Every part of the clause is certain on the trail, given that the package is in one of the states.
pub open spec fn satisfied_within<K, V>(
    clause: Clause<K, V>,
    trail: Seq<Entry<K, V>>,
    k: K,
    known: Set<Option<V>>,
) -> bool {
    forall|i: int|
        0 <= i < clause.len() ==> if (#[trigger] clause[i]).0 == k {
            open_states(trail, k).intersect(known).subset_of(clause[i].1)
        } else {
            open_states(trail, clause[i].0).subset_of(clause[i].1)
        }
}

/// Every part of the clause that is not about the package is certain on the trail.
pub open spec fn satisfied_except<K, V>(
    clause: Clause<K, V>,
    trail: Seq<Entry<K, V>>,
    k: K,
) -> bool {
    forall|i: int|
        0 <= i < clause.len() && (#[trigger] clause[i]).0 != k ==> open_states(
            trail,
            clause[i].0,
        ).subset_of(clause[i].1)
}

/// The Boolean pattern of a package state: which of the atoms about the package it is in.
pub open spec fn pattern<K, V>(atoms: Clause<K, V>, k: K, x: Option<V>) -> Seq<bool> {
    Seq::new(atoms.len(), |i: int| atoms[i].0 == k && atoms[i].1.contains(x))
}

/// The set of states does not tell two states of one pattern apart.
pub open spec fn respects<K, V>(atoms: Clause<K, V>, k: K, set: Set<Option<V>>) -> bool {
    forall|x: Option<V>, y: Option<V>|
        #![trigger set.contains(x), set.contains(y)]
        pattern(atoms, k, x) == pattern(atoms, k, y) ==> set.contains(x) == set.contains(y)
}

/// The set holds at most one state.
pub open spec fn at_most_one<V>(set: Set<Option<V>>) -> bool {
    forall|x: Option<V>, y: Option<V>| #[trigger]
        set.contains(x) && #[trigger] set.contains(y) ==> x == y
}

/// A clause that the search may hold: it is made of the atoms, and no part of it is vacuous.
pub open spec fn clause_ok<K, V>(atoms: Clause<K, V>, clause: Clause<K, V>) -> bool {
    &&& distinct(clause)
    &&& forall|i: int|
        0 <= i < clause.len() ==> {
            &&& (#[trigger] clause[i]).1 != Set::<Option<V>>::full()
            &&& respects(atoms, clause[i].0, clause[i].1)
            &&& mentions(atoms, clause[i].0)
        }
}

pub open spec fn store_ok<K, V>(atoms: Clause<K, V>, store: Seq<Clause<K, V>>) -> bool {
    forall|i: int| 0 <= i < store.len() ==> clause_ok(atoms, #[trigger] store[i])
}

/// The entry may follow the trail.
pub open spec fn entry_ok<K, V>(
    atoms: Clause<K, V>,
    store: Seq<Clause<K, V>>,
    trail: Seq<Entry<K, V>>,
    e: Entry<K, V>,
) -> bool {
    &&& e.set != Set::<Option<V>>::empty()
    &&& mentions(atoms, e.key)
    &&& match e.cause {
        Some(c) => {
            &&& 0 <= c < store.len()
            &&& e.level == level(trail)
            &&& e.set == open_states(trail, e.key).intersect(at(store[c], e.key).complement())
            &&& !open_states(trail, e.key).disjoint(at(store[c], e.key))
            &&& satisfied_except(store[c], trail, e.key)
            &&& respects(atoms, e.key, e.set)
        },
        None => {
            &&& e.level == level(trail) + 1
            &&& !decided(trail, e.key)
            &&& e.set.subset_of(open_states(trail, e.key))
            &&& at_most_one(e.set)
        },
    }
}

#[verifier::opaque]
pub open spec fn trail_ok<K, V>(
    atoms: Clause<K, V>,
    store: Seq<Clause<K, V>>,
    trail: Seq<Entry<K, V>>,
) -> bool {
    forall|i: int|
        0 <= i < trail.len() ==> entry_ok(atoms, store, trail.take(i), #[trigger] trail[i])
}

/// Whatever was decided on had to be selected.
pub open spec fn grounded<K, V>(trail: Seq<Entry<K, V>>) -> bool {
    forall|i: int|
        0 <= i < trail.len() && (#[trigger] trail[i]).cause is None ==> !open_states(
            trail.take(i),
            trail[i].key,
        ).contains(None)
}

pub proof fn lemma_grounded_push<K, V>(trail: Seq<Entry<K, V>>, e: Entry<K, V>)
    requires
        grounded(trail),
        e.cause is Some || !open_states(trail, e.key).contains(None),
    ensures
        grounded(trail.push(e)),
{
    let longer = trail.push(e);
    assert forall|i: int| 0 <= i < longer.len() && (
    #[trigger] longer[i]).cause is None implies !open_states(
        longer.take(i),
        longer[i].key,
    ).contains(None) by {
        assert(longer.take(i) =~= trail.take(i));
        if i < trail.len() {
            assert(longer[i] == trail[i]);
        } else {
            assert(trail.take(i) =~= trail);
        }
    }
}

pub proof fn lemma_grounded_take<K, V>(trail: Seq<Entry<K, V>>, n: int)
    requires
        grounded(trail),
        0 <= n <= trail.len(),
    ensures
        grounded(trail.take(n)),
{
    let shorter = trail.take(n);
    assert forall|i: int| 0 <= i < shorter.len() && (
    #[trigger] shorter[i]).cause is None implies !open_states(
        shorter.take(i),
        shorter[i].key,
    ).contains(None) by {
        assert(shorter.take(i) =~= trail.take(i));
        assert(shorter[i] == trail[i]);
    }
}

pub proof fn lemma_trail_entry<K, V>(
    atoms: Clause<K, V>,
    store: Seq<Clause<K, V>>,
    trail: Seq<Entry<K, V>>,
    i: int,
)
    requires
        trail_ok(atoms, store, trail),
        0 <= i < trail.len(),
    ensures
        entry_ok(atoms, store, trail.take(i), trail[i]),
{
    reveal(trail_ok);
}

pub proof fn lemma_trail_push<K, V>(
    atoms: Clause<K, V>,
    store: Seq<Clause<K, V>>,
    trail: Seq<Entry<K, V>>,
    e: Entry<K, V>,
)
    requires
        trail_ok(atoms, store, trail),
        entry_ok(atoms, store, trail, e),
    ensures
        trail_ok(atoms, store, trail.push(e)),
{
    reveal(trail_ok);
    let longer = trail.push(e);
    assert forall|i: int| 0 <= i < longer.len() implies entry_ok(
        atoms,
        store,
        longer.take(i),
        #[trigger] longer[i],
    ) by {
        assert(longer.take(i) =~= trail.take(i));
        if i < trail.len() {
            assert(longer[i] == trail[i]);
        } else {
            assert(trail.take(i) =~= trail);
        }
    }
}

pub proof fn lemma_trail_take<K, V>(
    atoms: Clause<K, V>,
    store: Seq<Clause<K, V>>,
    trail: Seq<Entry<K, V>>,
    n: int,
)
    requires
        trail_ok(atoms, store, trail),
        0 <= n <= trail.len(),
    ensures
        trail_ok(atoms, store, trail.take(n)),
{
    reveal(trail_ok);
    let shorter = trail.take(n);
    assert forall|i: int| 0 <= i < shorter.len() implies entry_ok(
        atoms,
        store,
        shorter.take(i),
        #[trigger] shorter[i],
    ) by {
        assert(shorter.take(i) =~= trail.take(i));
        assert(shorter[i] == trail[i]);
    }
}

/// More clauses and finer atoms leave a trail as it is.
pub proof fn lemma_trail_grow<K, V>(
    atoms: Clause<K, V>,
    store: Seq<Clause<K, V>>,
    trail: Seq<Entry<K, V>>,
    finer: Clause<K, V>,
    longer: Seq<Clause<K, V>>,
)
    requires
        trail_ok(atoms, store, trail),
        atoms.is_prefix_of(finer),
        store.is_prefix_of(longer),
    ensures
        trail_ok(finer, longer, trail),
{
    reveal(trail_ok);
    assert forall|i: int| 0 <= i < trail.len() implies entry_ok(
        finer,
        longer,
        trail.take(i),
        #[trigger] trail[i],
    ) by {
        let e = trail[i];
        assert(entry_ok(atoms, store, trail.take(i), e));
        lemma_mentions_grow(atoms, finer, e.key);
        match e.cause {
            Some(c) => {
                assert(longer[c] == store[c]);
                lemma_respects_grow(atoms, finer, e.key, e.set);
            },
            None => {},
        }
    }
}

pub proof fn lemma_mentions_grow<K, V>(atoms: Clause<K, V>, finer: Clause<K, V>, k: K)
    requires
        atoms.is_prefix_of(finer),
        mentions(atoms, k),
    ensures
        mentions(finer, k),
{
    let i = choose|i: int| 0 <= i < atoms.len() && (#[trigger] atoms[i]).0 == k;
    assert(finer[i].0 == k);
}

pub proof fn lemma_respects_grow<K, V>(
    atoms: Clause<K, V>,
    finer: Clause<K, V>,
    k: K,
    set: Set<Option<V>>,
)
    requires
        atoms.is_prefix_of(finer),
        respects(atoms, k, set),
    ensures
        respects(finer, k, set),
{
    assert forall|x: Option<V>, y: Option<V>|
        #![trigger set.contains(x), set.contains(y)]
        pattern(finer, k, x) == pattern(finer, k, y) implies set.contains(x) == set.contains(y) by {
        assert forall|i: int| 0 <= i < atoms.len() implies pattern(atoms, k, x)[i] == pattern(
            atoms,
            k,
            y,
        )[i] by {
            assert(atoms[i] == finer[i]);
            assert(pattern(finer, k, x)[i] == pattern(finer, k, y)[i]);
        }
        assert(pattern(atoms, k, x) =~= pattern(atoms, k, y));
    }
}

pub proof fn lemma_clause_grow<K, V>(atoms: Clause<K, V>, finer: Clause<K, V>, clause: Clause<K, V>)
    requires
        atoms.is_prefix_of(finer),
        clause_ok(atoms, clause),
    ensures
        clause_ok(finer, clause),
{
    assert forall|i: int| 0 <= i < clause.len() implies {
        &&& (#[trigger] clause[i]).1 != Set::<Option<V>>::full()
        &&& respects(finer, clause[i].0, clause[i].1)
        &&& mentions(finer, clause[i].0)
    } by {
        lemma_respects_grow(atoms, finer, clause[i].0, clause[i].1);
        lemma_mentions_grow(atoms, finer, clause[i].0);
    }
}

pub proof fn lemma_store_grow<K, V>(
    atoms: Clause<K, V>,
    finer: Clause<K, V>,
    store: Seq<Clause<K, V>>,
)
    requires
        atoms.is_prefix_of(finer),
        store_ok(atoms, store),
    ensures
        store_ok(finer, store),
{
    assert forall|i: int| 0 <= i < store.len() implies clause_ok(finer, #[trigger] store[i]) by {
        lemma_clause_grow(atoms, finer, store[i]);
    }
}

/// An atom respects the atoms.
pub proof fn lemma_atom_respects<K, V>(atoms: Clause<K, V>, i: int)
    requires
        0 <= i < atoms.len(),
    ensures
        respects(atoms, atoms[i].0, atoms[i].1),
        mentions(atoms, atoms[i].0),
{
    let k = atoms[i].0;
    let set = atoms[i].1;
    assert forall|x: Option<V>, y: Option<V>|
        #![trigger set.contains(x), set.contains(y)]
        pattern(atoms, k, x) == pattern(atoms, k, y) implies set.contains(x) == set.contains(y) by {
        assert(pattern(atoms, k, x)[i] == set.contains(x));
        assert(pattern(atoms, k, y)[i] == set.contains(y));
    }
}

/// The trail leaves ever fewer states open.
pub proof fn lemma_open_states_shrink<K, V>(
    atoms: Clause<K, V>,
    store: Seq<Clause<K, V>>,
    trail: Seq<Entry<K, V>>,
    n: int,
    k: K,
)
    requires
        trail_ok(atoms, store, trail),
        0 <= n <= trail.len(),
    ensures
        open_states(trail, k).subset_of(open_states(trail.take(n), k)),
    decreases trail.len(),
{
    if n == trail.len() {
        assert(trail.take(n) =~= trail);
    } else {
        let last = trail.len() - 1;
        assert(trail.drop_last() =~= trail.take(last));
        assert(trail.drop_last().take(n) =~= trail.take(n));
        lemma_trail_take(atoms, store, trail, last);
        lemma_open_states_shrink(atoms, store, trail.drop_last(), n, k);
        lemma_trail_entry(atoms, store, trail, last);
    }
}

/// Some state is left open for every package.
pub proof fn lemma_open_states_nonempty<K, V>(
    atoms: Clause<K, V>,
    store: Seq<Clause<K, V>>,
    trail: Seq<Entry<K, V>>,
    k: K,
)
    requires
        trail_ok(atoms, store, trail),
    ensures
        open_states(trail, k) != Set::<Option<V>>::empty(),
    decreases trail.len(),
{
    if trail.len() == 0 {
        assert(open_states(trail, k).contains(None));
    } else {
        let last = trail.len() - 1;
        assert(trail.drop_last() =~= trail.take(last));
        lemma_trail_take(atoms, store, trail, last);
        lemma_open_states_nonempty(atoms, store, trail.drop_last(), k);
        lemma_trail_entry(atoms, store, trail, last);
    }
}

pub proof fn lemma_decided_push<K, V>(trail: Seq<Entry<K, V>>, e: Entry<K, V>, k: K)
    ensures
        decided(trail.push(e), k) <==> decided(trail, k) || (e.key == k && e.cause is None),
{
    let longer = trail.push(e);
    if decided(trail, k) {
        let i = choose|i: int|
            0 <= i < trail.len() && (#[trigger] trail[i]).key == k && trail[i].cause is None;
        assert(longer[i].key == k);
    }
    if e.key == k && e.cause is None {
        assert(longer[trail.len() as int].key == k);
    }
    if decided(longer, k) {
        let i = choose|i: int|
            0 <= i < longer.len() && (#[trigger] longer[i]).key == k && longer[i].cause is None;
        if i < trail.len() {
            assert(trail[i].key == k);
        }
    }
}

/// The states left open for an undecided package respect the atoms; a decided package has one.
pub proof fn lemma_open_states_kind<K, V>(
    atoms: Clause<K, V>,
    store: Seq<Clause<K, V>>,
    trail: Seq<Entry<K, V>>,
    k: K,
)
    requires
        trail_ok(atoms, store, trail),
    ensures
        !decided(trail, k) ==> respects(atoms, k, open_states(trail, k)),
        decided(trail, k) ==> at_most_one(open_states(trail, k)),
    decreases trail.len(),
{
    if trail.len() > 0 {
        let last = trail.len() - 1;
        let before = trail.drop_last();
        assert(before =~= trail.take(last));
        lemma_trail_take(atoms, store, trail, last);
        lemma_open_states_kind(atoms, store, before, k);
        let e = trail[last];
        lemma_trail_entry(atoms, store, trail, last);
        assert(trail =~= before.push(e));
        lemma_decided_push(before, e, k);
        if e.key == k && e.cause is Some && decided(before, k) {
            assert(at_most_one(e.set)) by {
                let wider = open_states(before, k);
                assert forall|x: Option<V>, y: Option<V>| #[trigger] e.set.contains(x)
                    && #[trigger] e.set.contains(y) implies x == y by {
                    assert(wider.contains(x) && wider.contains(y));
                }
            }
        }
    }
}

/// No derivation follows for a decided package.
pub proof fn lemma_derived_undecided<K, V>(
    atoms: Clause<K, V>,
    store: Seq<Clause<K, V>>,
    trail: Seq<Entry<K, V>>,
    k: K,
    set: Set<Option<V>>,
)
    requires
        trail_ok(atoms, store, trail),
        !open_states(trail, k).subset_of(set),
        !open_states(trail, k).disjoint(set),
    ensures
        !decided(trail, k),
{
    lemma_open_states_kind(atoms, store, trail, k);
    let x = choose|x: Option<V>| open_states(trail, k).contains(x) && !set.contains(x);
    let y = choose|y: Option<V>| open_states(trail, k).contains(y) && set.contains(y);
    assert(x != y);
}

/// A clause is certain exactly when each package is certain to be in the states it is about.
pub proof fn lemma_satisfied_at<K, V>(clause: Clause<K, V>, trail: Seq<Entry<K, V>>, k: K)
    requires
        distinct(clause),
    ensures
        satisfied(clause, trail) <==> satisfied_except(clause, trail, k) && open_states(
            trail,
            k,
        ).subset_of(at(clause, k)),
{
    if mentions(clause, k) {
        let i = choose|i: int| 0 <= i < clause.len() && (#[trigger] clause[i]).0 == k;
        lemma_at(clause, i);
        if satisfied_except(clause, trail, k) && open_states(trail, k).subset_of(at(clause, k)) {
            assert forall|j: int| 0 <= j < clause.len() implies open_states(
                trail,
                (#[trigger] clause[j]).0,
            ).subset_of(clause[j].1) by {
                if clause[j].0 == k {
                    lemma_at(clause, j);
                }
            }
        }
    }
}

pub proof fn lemma_satisfied_except_at<K, V>(
    clause: Clause<K, V>,
    trail: Seq<Entry<K, V>>,
    k: K,
    q: K,
)
    requires
        satisfied_except(clause, trail, k),
        q != k,
    ensures
        open_states(trail, q).subset_of(at(clause, q)),
{
    if mentions(clause, q) {
        let i = choose|i: int| 0 <= i < clause.len() && (#[trigger] clause[i]).0 == q;
        assert(clause[i].0 != k);
    }
}

/// What is certain stays certain on a longer trail.
pub proof fn lemma_satisfied_except_later<K, V>(
    atoms: Clause<K, V>,
    store: Seq<Clause<K, V>>,
    trail: Seq<Entry<K, V>>,
    clause: Clause<K, V>,
    m: int,
    k: K,
)
    requires
        trail_ok(atoms, store, trail),
        0 <= m <= trail.len(),
        satisfied_except(clause, trail.take(m), k),
    ensures
        satisfied_except(clause, trail, k),
{
    assert forall|i: int| 0 <= i < clause.len() && (#[trigger] clause[i]).0 != k implies open_states(
        trail,
        clause[i].0,
    ).subset_of(clause[i].1) by {
        lemma_open_states_shrink(atoms, store, trail, m, clause[i].0);
    }
}

/// The third clause is the resolvent of the first two on the package.
pub open spec fn resolves<K, V>(
    a: Clause<K, V>,
    b: Clause<K, V>,
    r: Clause<K, V>,
    k: K,
) -> bool {
    forall|q: K| #[trigger]
        at(r, q) == if q == k {
            at(a, q).union(at(b, q))
        } else {
            at(a, q).intersect(at(b, q))
        }
}

pub proof fn lemma_resolvent_sound<K, V>(
    a: Clause<K, V>,
    b: Clause<K, V>,
    r: Clause<K, V>,
    k: K,
    s: Map<K, V>,
)
    requires
        distinct(a),
        distinct(b),
        distinct(r),
        resolves(a, b, r, k),
        violates(r, s),
    ensures
        violates(a, s) || violates(b, s),
{
    lemma_violates_at(a, s);
    lemma_violates_at(b, s);
    lemma_violates_at(r, s);
    assert(at(r, k).contains(s.get(k)));
    if at(a, k).contains(s.get(k)) {
        assert forall|q: K| #[trigger] at(a, q).contains(s.get(q)) by {
            assert(at(r, q).contains(s.get(q)));
        }
    } else {
        assert forall|q: K| #[trigger] at(b, q).contains(s.get(q)) by {
            assert(at(r, q).contains(s.get(q)));
        }
    }
}

/// The resolvent with the cause of the last entry was certain before that entry.
pub proof fn lemma_resolvent_satisfied<K, V>(
    atoms: Clause<K, V>,
    store: Seq<Clause<K, V>>,
    trail: Seq<Entry<K, V>>,
    a: Clause<K, V>,
    r: Clause<K, V>,
    n: int,
)
    requires
        trail_ok(atoms, store, trail),
        0 < n <= trail.len(),
        trail[n - 1].cause is Some,
        distinct(a),
        distinct(r),
        satisfied(a, trail.take(n)),
        resolves(a, store[trail[n - 1].cause->0], r, trail[n - 1].key),
    ensures
        satisfied(r, trail.take(n - 1)),
{
    let before = trail.take(n - 1);
    let after = trail.take(n);
    let e = trail[n - 1];
    let b = store[e.cause->0];
    lemma_trail_entry(atoms, store, trail, n - 1);
    assert(after.drop_last() =~= before);
    assert(after.last() == e);
    assert forall|i: int| 0 <= i < r.len() implies open_states(
        before,
        (#[trigger] r[i]).0,
    ).subset_of(r[i].1) by {
        let q = r[i].0;
        lemma_at(r, i);
        lemma_satisfied_at(a, after, q);
        if q == e.key {
            assert(open_states(after, q) == e.set);
            assert forall|x: Option<V>| #[trigger] open_states(before, q).contains(
                x,
            ) implies r[i].1.contains(x) by {
                if !at(b, q).contains(x) {
                    assert(e.set.contains(x));
                    assert(at(a, q).contains(x));
                }
            }
        } else {
            lemma_satisfied_except_at(b, before, e.key, q);
            assert(open_states(after, q) == open_states(before, q));
        }
    }
}

pub proof fn lemma_respects_ops<K, V>(
    atoms: Clause<K, V>,
    k: K,
    a: Set<Option<V>>,
    b: Set<Option<V>>,
)
    requires
        respects(atoms, k, a),
        respects(atoms, k, b),
    ensures
        respects(atoms, k, a.union(b)),
        respects(atoms, k, a.intersect(b)),
        respects(atoms, k, a.intersect(b.complement())),
{
    assert forall|x: Option<V>, y: Option<V>| pattern(atoms, k, x) == pattern(
        atoms,
        k,
        y,
    ) implies #[trigger] a.contains(x) == #[trigger] a.contains(y) && b.contains(x) == b.contains(
        y,
    ) by {
        assert(b.contains(x) == b.contains(y));
    }
}

/// The states that a clause is about respect the atoms.
pub proof fn lemma_at_respects<K, V>(atoms: Clause<K, V>, clause: Clause<K, V>, k: K)
    requires
        clause_ok(atoms, clause),
    ensures
        respects(atoms, k, at(clause, k)),
{
    if mentions(clause, k) {
        let i = choose|i: int| 0 <= i < clause.len() && (#[trigger] clause[i]).0 == k;
        lemma_at(clause, i);
    }
}

/// A clause that is certain up to one part, which is open, yields a derivation.
pub proof fn lemma_derivation<K, V>(
    atoms: Clause<K, V>,
    store: Seq<Clause<K, V>>,
    trail: Seq<Entry<K, V>>,
    c: int,
    k: K,
) -> (e: Entry<K, V>)
    requires
        store_ok(atoms, store),
        trail_ok(atoms, store, trail),
        0 <= c < store.len(),
        mentions(store[c], k),
        satisfied_except(store[c], trail, k),
        !open_states(trail, k).subset_of(at(store[c], k)),
        !open_states(trail, k).disjoint(at(store[c], k)),
    ensures
        e == (Entry {
            key: k,
            set: open_states(trail, k).intersect(at(store[c], k).complement()),
            cause: Some(c),
            level: level(trail),
        }),
        entry_ok(atoms, store, trail, e),
        !decided(trail, k),
{
    let e = Entry {
        key: k,
        set: open_states(trail, k).intersect(at(store[c], k).complement()),
        cause: Some(c),
        level: level(trail),
    };
    let x = choose|x: Option<V>|
        open_states(trail, k).contains(x) && !at(store[c], k).contains(x);
    assert(e.set.contains(x));
    let i = choose|i: int| 0 <= i < store[c].len() && (#[trigger] store[c][i]).0 == k;
    assert(mentions(atoms, store[c][i].0));
    lemma_derived_undecided(atoms, store, trail, k, at(store[c], k));
    lemma_open_states_kind(atoms, store, trail, k);
    lemma_at_respects(atoms, store[c], k);
    lemma_respects_ops(atoms, k, open_states(trail, k), at(store[c], k));
    e
}

} // verus!
