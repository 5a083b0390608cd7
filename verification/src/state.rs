//! The clauses and the trail of a search.

use std::sync::Arc;

use vstd::prelude::*;

use crate::machine;
use crate::machine::{Scan, Standing};
use crate::observer;
use crate::observer::{Cause, Observed, SolverEvent, SolverObserver};
use crate::package;
use crate::package::{holds_package, Package};
use crate::progress;
use crate::report::{Derived, DerivationTree, External};
use crate::search;
use crate::search::{Clause, Entry};
use crate::term;
use crate::term::Term;
use crate::trace;
use crate::version::Version;
use crate::version_set::VersionSet;

verus! {

/// Another pointer to the same value, as `Arc::clone` makes it.
#[verifier::external_body]
pub(crate) fn share<T>(value: &Arc<T>) -> (r: Arc<T>)
    ensures
        r == *value,
{
    Arc::clone(value)
}

/// Terms that must not hold together, and why.
pub struct Incompatibility<P, VS: VersionSet, M> {
    pub terms: Vec<(P, Term<VS>)>,
    pub tree: Arc<DerivationTree<P, VS, M>>,
}

impl<P: Package, VS: VersionSet, M> Incompatibility<P, VS, M> {
    pub open spec fn clause(self) -> Clause<P::V, VS::V> {
        term::parts(self.terms@)
    }

    /// The tree is sound, and a selection in which the terms hold together runs into a fact that it
    /// rests on.
    pub open spec fn justified(self) -> bool {
        &&& self.tree.is_sound()
        &&& forall|s: Map<P::V, VS::V>| #[trigger]
            search::violates(self.clause(), s) ==> self.tree.refutes(s)
        &&& forall|k: P::V| #[trigger]
            search::mentions(self.clause(), k) ==> self.tree.involves(k)
        &&& forall|k: P::V| #[trigger]
            search::mentions(self.clause(), k) <==> self.tree.names(k)
    }
}

/// One step of the search: a decision, or a derivation with the incompatibility that caused it.
pub struct Assignment<P, VS: VersionSet> {
    /// The package that the step is about.
    pub package: P,
    /// What is left open for the package.
    pub term: Term<VS>,
    /// The incompatibility that caused a derivation.
    pub cause: Option<usize>,
    /// The version that was decided on.
    pub version: Option<VS::V>,
}

/// A decision leaves open the version that it is for, and nothing else.
pub open spec fn decisions_ok<P, VS: VersionSet>(trail: Seq<Assignment<P, VS>>) -> bool {
    forall|i: int|
        0 <= i < trail.len() && (#[trigger] trail[i]).cause is None ==> {
            &&& trail[i].version is Some
            &&& trail[i].term@ == term::only(trail[i].version->0)
        }
}

/// The decided packages at their versions.
pub open spec fn selection<P: Package, VS: VersionSet>(trail: Seq<Assignment<P, VS>>) -> Map<
    P::V,
    VS::V,
>
    decreases trail.len(),
{
    if trail.len() == 0 {
        Map::empty()
    } else if trail.last().cause is None {
        selection(trail.drop_last()).insert(trail.last().package@, trail.last().version->0)
    } else {
        selection(trail.drop_last())
    }
}

/// The decisions in turn. Each of them is on the level that its number in turn is, from one on.
pub open spec fn decisions<P: Package, VS: VersionSet>(trail: Seq<Assignment<P, VS>>) -> Seq<
    (P::V, VS::V),
>
    decreases trail.len(),
{
    if trail.len() == 0 {
        Seq::empty()
    } else if trail.last().cause is None {
        decisions(trail.drop_last()).push((trail.last().package@, trail.last().version->0))
    } else {
        decisions(trail.drop_last())
    }
}

/// What is selected has been decided.
pub proof fn lemma_selected_is_decided<P: Package, VS: VersionSet>(
    trail: Seq<Assignment<P, VS>>,
    k: P::V,
) -> (d: int)
    requires
        selection(trail).dom().contains(k),
    ensures
        0 <= d < decisions(trail).len(),
        decisions(trail)[d] == (k, selection(trail)[k]),
    decreases trail.len(),
{
    if trail.last().cause is None && trail.last().package@ == k {
        decisions(trail).len() - 1
    } else {
        lemma_selected_is_decided(trail.drop_last(), k)
    }
}

/// What has been decided is selected.
pub proof fn lemma_decided_is_selected<P: Package, VS: VersionSet>(
    atoms: Clause<P::V, VS::V>,
    store: Seq<Clause<P::V, VS::V>>,
    trail: Seq<Assignment<P, VS>>,
    d: int,
)
    requires
        search::trail_ok(atoms, store, entries(trail)),
        decisions_ok(trail),
        0 <= d < decisions(trail).len(),
    ensures
        selection(trail).get(decisions(trail)[d].0) == Some(decisions(trail)[d].1),
    decreases trail.len(),
{
    if trail.last().cause is None && d == decisions(trail).len() - 1 {
    } else {
        let n = trail.len() - 1;
        let before = trail.drop_last();
        assert(before =~= trail.take(n));
        lemma_entries_take(trail, n);
        search::lemma_trail_take(atoms, store, entries(trail), n);
        assert forall|i: int|
            0 <= i < before.len() && (#[trigger] before[i]).cause is None implies {
            &&& before[i].version is Some
            &&& before[i].term@ == term::only(before[i].version->0)
        } by {
            assert(trail[i] == before[i]);
        }
        lemma_decided_is_selected(atoms, store, before, d);
        lemma_selection_grows(atoms, store, trail);
        let k = decisions(trail)[d].0;
        assert(selection(before).dom().contains(k));
        assert(selection(trail).dom().contains(k));
    }
}

/// The level is the number of decisions.
pub proof fn lemma_decisions<P: Package, VS: VersionSet>(trail: Seq<Assignment<P, VS>>)
    ensures
        decisions(trail).len() == decisions_among(trail, trail.len() as int),
        decisions(trail).len() == search::level(entries(trail)),
    decreases trail.len(),
{
    if trail.len() > 0 {
        let n = trail.len() - 1;
        lemma_decisions(trail.drop_last());
        lemma_decisions_among(trail, trail.drop_last(), n);
        assert(entries(trail).last().level == decisions_among(trail, n + 1));
    }
}

/// Every decision is a step.
pub proof fn lemma_decision_step<P: Package, VS: VersionSet>(
    trail: Seq<Assignment<P, VS>>,
    k: P::V,
    v: VS::V,
) -> (t: int)
    requires
        decisions(trail).contains((k, v)),
        decisions_ok(trail),
    ensures
        0 <= t < trail.len(),
        entries(trail)[t].cause is None,
        entries(trail)[t].key == k,
        entries(trail)[t].set == term::only(v),
    decreases trail.len(),
{
    let n = trail.len() - 1;
    let shorter = trail.drop_last();
    let all = decisions(trail);
    let d = choose|d: int| 0 <= d < all.len() && all[d] == (k, v);
    if trail.last().cause is None && d == all.len() - 1 {
        assert(trail[n].cause is None);
        n
    } else {
        assert(decisions(shorter)[d] == (k, v));
        assert(decisions_ok(shorter)) by {
            assert forall|i: int| 0 <= i < shorter.len() && (
            #[trigger] shorter[i]).cause is None implies {
                &&& shorter[i].version is Some
                &&& shorter[i].term@ == term::only(shorter[i].version->0)
            } by {
                assert(shorter[i] == trail[i]);
            }
        }
        let t = lemma_decision_step(shorter, k, v);
        assert(shorter[t] == trail[t]);
        t
    }
}

/// The decided packages are those selected, and each of them is left open at its version alone.
pub proof fn lemma_selection<P: Package, VS: VersionSet>(
    atoms: Clause<P::V, VS::V>,
    store: Seq<Clause<P::V, VS::V>>,
    trail: Seq<Assignment<P, VS>>,
    k: P::V,
)
    requires
        search::trail_ok(atoms, store, entries(trail)),
        decisions_ok(trail),
    ensures
        selection(trail).dom().contains(k) <==> search::decided(entries(trail), k),
        selection(trail).dom().contains(k) ==> search::open_states(entries(trail), k) == term::only(
            selection(trail)[k],
        ),
    decreases trail.len(),
{
    if trail.len() > 0 {
        let n = trail.len() - 1;
        let before = trail.drop_last();
        let e = entries(trail)[n];
        assert(before =~= trail.take(n));
        lemma_entries_take(trail, n);
        search::lemma_trail_take(atoms, store, entries(trail), n);
        search::lemma_trail_entry(atoms, store, entries(trail), n);
        assert(decisions_ok(before)) by {
            assert forall|i: int| 0 <= i < before.len() && (
            #[trigger] before[i]).cause is None implies {
                &&& before[i].version is Some
                &&& before[i].term@ == term::only(before[i].version->0)
            } by {
                assert(trail[i] == before[i]);
            }
        }
        lemma_selection(atoms, store, before, k);
        assert(entries(trail) =~= entries(before).push(e));
        search::lemma_decided_push(entries(before), e, k);
        progress::lemma_open_states_push(entries(before), e, k);
        assert(trail[n] == trail.last());
        if e.key == k && e.cause is Some && search::decided(entries(before), k) {
            let one = term::only(selection(before)[k]);
            assert(e.set.subset_of(one));
            assert(e.set =~= one) by {
                let x = choose|x: Option<VS::V>| e.set.contains(x);
                if forall|x: Option<VS::V>| !e.set.contains(x) {
                    assert(e.set =~= Set::empty());
                }
                assert(e.set.contains(x));
                assert(one.contains(x));
                assert forall|y: Option<VS::V>| one.contains(y) implies e.set.contains(y) by {
                    assert(x == y);
                }
            }
        }
    } else {
        assert(!search::decided(entries(trail), k));
    }
}

proof fn lemma_submap_chain<K, V>(a: Map<K, V>, b: Map<K, V>, c: Map<K, V>)
    requires
        a.submap_of(b),
        b.submap_of(c),
    ensures
        a.submap_of(c),
{
    assert forall|k: K| #[trigger] a.dom().contains(k) implies c.dom().contains(k) && a[k]
        == c[k] by {
        assert(b.dom().contains(k));
    }
}

/// A step keeps the packages that were selected before.
proof fn lemma_selection_grows<P: Package, VS: VersionSet>(
    atoms: Clause<P::V, VS::V>,
    store: Seq<Clause<P::V, VS::V>>,
    trail: Seq<Assignment<P, VS>>,
)
    requires
        search::trail_ok(atoms, store, entries(trail)),
        decisions_ok(trail),
        trail.len() > 0,
    ensures
        selection(trail.drop_last()).submap_of(selection(trail)),
{
    let n = trail.len() - 1;
    let before = trail.drop_last();
    assert(before =~= trail.take(n));
    lemma_entries_take(trail, n);
    search::lemma_trail_take(atoms, store, entries(trail), n);
    search::lemma_trail_entry(atoms, store, entries(trail), n);
    assert forall|i: int| 0 <= i < before.len() && (#[trigger] before[i]).cause is None implies {
        &&& before[i].version is Some
        &&& before[i].term@ == term::only(before[i].version->0)
    } by {
        assert(trail[i] == before[i]);
    }
    lemma_selection(atoms, store, before, trail.last().package@);
}

/// The number of decisions among the first `n` steps.
pub open spec fn decisions_among<P, VS: VersionSet>(trail: Seq<Assignment<P, VS>>, n: int) -> int
    decreases n,
{
    if n <= 0 {
        0
    } else if trail[n - 1].cause is None {
        decisions_among(trail, n - 1) + 1
    } else {
        decisions_among(trail, n - 1)
    }
}

proof fn lemma_decisions_among<P, VS: VersionSet>(
    a: Seq<Assignment<P, VS>>,
    b: Seq<Assignment<P, VS>>,
    n: int,
)
    requires
        n <= a.len(),
        n <= b.len(),
        forall|i: int| 0 <= i < n ==> a[i] == b[i],
    ensures
        decisions_among(a, n) == decisions_among(b, n),
    decreases n,
{
    if n > 0 {
        lemma_decisions_among(a, b, n - 1);
    }
}

pub open spec fn entries<P: Package, VS: VersionSet>(trail: Seq<Assignment<P, VS>>) -> Seq<
    Entry<P::V, VS::V>,
> {
    Seq::new(
        trail.len(),
        |i: int|
            Entry {
                key: trail[i].package@,
                set: trail[i].term@,
                cause: match trail[i].cause {
                    Some(c) => Some(c as int),
                    None => None,
                },
                level: decisions_among(trail, i + 1),
            },
    )
}

proof fn lemma_entries_push<P: Package, VS: VersionSet>(
    trail: Seq<Assignment<P, VS>>,
    last: Assignment<P, VS>,
)
    ensures
        entries(trail.push(last)) == entries(trail).push(
            Entry {
                key: last.package@,
                set: last.term@,
                cause: match last.cause {
                    Some(c) => Some(c as int),
                    None => None,
                },
                level: search::level(entries(trail)) + if last.cause is None {
                    1int
                } else {
                    0int
                },
            },
        ),
{
    let longer = trail.push(last);
    let n = trail.len() as int;
    assert forall|i: int| 0 <= i <= n implies #[trigger] decisions_among(longer, i)
        == decisions_among(trail, i) by {
        lemma_decisions_among(longer, trail, i);
    }
    assert(decisions_among(longer, n + 1) == decisions_among(longer, n) + if last.cause is None {
        1int
    } else {
        0int
    });
    assert(search::level(entries(trail)) == decisions_among(trail, n));
    assert forall|i: int| 0 <= i < n implies entries(longer)[i] == entries(trail)[i] by {
        assert(decisions_among(longer, i + 1) == decisions_among(trail, i + 1));
    }
    assert(entries(longer) =~= entries(trail).push(entries(longer)[n]));
}

proof fn lemma_entries_take<P: Package, VS: VersionSet>(trail: Seq<Assignment<P, VS>>, n: int)
    requires
        0 <= n <= trail.len(),
    ensures
        entries(trail.take(n)) == entries(trail).take(n),
{
    let shorter = trail.take(n);
    assert forall|i: int| 0 <= i < n implies entries(shorter)[i] == entries(trail)[i] by {
        lemma_decisions_among(shorter, trail, i + 1);
    }
    assert(entries(shorter) =~= entries(trail).take(n));
}

/// How an incompatibility stands to the trail.
pub enum Relation {
    /// All its terms are certain.
    Satisfied,
    /// All its terms but the given one are certain, and that one is open.
    AlmostSatisfied(usize),
    /// Neither.
    Inconclusive,
}

/// The term for the package, if there is one.
pub fn find_term<P: Package, VS: VersionSet>(terms: &Vec<(P, Term<VS>)>, package: &P) -> (r: Option<
    usize,
>)
    ensures
        match r {
            Some(i) => i < terms@.len() && terms@[i as int].0@ == package@ && search::mentions(
                term::parts(terms@),
                package@,
            ),
            None => !search::mentions(term::parts(terms@), package@),
        },
{
    let mut i: usize = 0;
    while i < terms.len()
        invariant
            i <= terms.len(),
            forall|j: int| 0 <= j < i ==> (#[trigger] terms@[j]).0@ != package@,
        decreases terms.len() - i,
    {
        if terms[i].0.same(package) {
            assert(term::parts(terms@)[i as int].0 == package@);
            return Some(i);
        }
        i += 1;
    }
    proof {
        if search::mentions(term::parts(terms@), package@) {
            let j = choose|j: int|
                0 <= j < term::parts(terms@).len() && (#[trigger] term::parts(terms@)[j]).0
                    == package@;
            assert(terms@[j].0@ == package@);
        }
    }
    None
}

pub fn duplicate_terms<P: Package, VS: VersionSet>(terms: &Vec<(P, Term<VS>)>) -> (r: Vec<
    (P, Term<VS>),
>)
    ensures
        term::parts(r@) == term::parts(terms@),
{
    let mut copy: Vec<(P, Term<VS>)> = Vec::new();
    let mut i: usize = 0;
    while i < terms.len()
        invariant
            i <= terms.len(),
            term::parts(copy@) =~= term::parts(terms@).take(i as int),
        decreases terms.len() - i,
    {
        let ghost before = term::parts(copy@);
        copy.push((terms[i].0.duplicate(), terms[i].1.duplicate()));
        proof {
            assert(term::parts(copy@) =~= before.push(term::parts(terms@)[i as int]));
            assert(term::parts(terms@).take(i + 1) =~= term::parts(terms@).take(i as int).push(
                term::parts(terms@)[i as int],
            ));
        }
        i += 1;
    }
    assert(term::parts(terms@).take(i as int) =~= term::parts(terms@));
    copy
}

/// The terms with at most one per package, and without those that always hold.
pub fn merge_terms<P: Package, VS: VersionSet>(terms: Vec<(P, Term<VS>)>) -> (r: Vec<
    (P, Term<VS>),
>)
    ensures
        search::distinct(term::parts(r@)),
        forall|i: int|
            0 <= i < r@.len() ==> (#[trigger] r@[i]).1@ != Set::<Option<VS::V>>::full(),
        forall|s: Map<P::V, VS::V>| #[trigger]
            search::violates(term::parts(r@), s) <==> search::violates(term::parts(terms@), s),
        forall|k: P::V| #[trigger]
            search::mentions(term::parts(r@), k) ==> search::mentions(term::parts(terms@), k),
        forall|k: P::V| #[trigger]
            search::mentions(term::parts(r@), k) <==> search::speaks_of(term::parts(terms@), k),
        term::parts(r@) == machine::tidied(term::parts(terms@)),
{
    let mut merged: Vec<(P, Term<VS>)> = Vec::new();
    let any = Term::<VS>::any();
    let mut i: usize = 0;
    let ghost all = term::parts(terms@);
    assert(term::parts(merged@) =~= machine::tidied(all.take(0)));
    while i < terms.len()
        invariant
            i <= terms.len(),
            all == term::parts(terms@),
            any@ == Set::<Option<VS::V>>::full(),
            term::parts(merged@) == machine::tidied(all.take(i as int)),
            search::distinct(term::parts(merged@)),
            forall|i: int|
                0 <= i < merged@.len() ==> (#[trigger] merged@[i]).1@ != Set::<
                    Option<VS::V>,
                >::full(),
            forall|s: Map<P::V, VS::V>| #[trigger]
                search::violates(term::parts(merged@), s) <==> search::violates(
                    all.take(i as int),
                    s,
                ),
            forall|k: P::V| #[trigger]
                search::mentions(term::parts(merged@), k) ==> search::mentions(
                    all.take(i as int),
                    k,
                ),
            forall|k: P::V| #[trigger]
                search::mentions(term::parts(merged@), k) <==> search::speaks_of(
                    all.take(i as int),
                    k,
                ),
        decreases terms.len() - i,
    {
        let ghost before = term::parts(merged@);
        let ghost new = all[i as int];
        assert(all.take(i + 1).drop_last() =~= all.take(i as int));
        assert(all.take(i + 1).last() == new);
        match find_term(&merged, &terms[i].0) {
            Some(j) => {
                let narrowed = merged[j].1.intersection(&terms[i].1);
                let package = terms[i].0.duplicate();
                proof {
                    assert(narrowed@ != Set::<Option<VS::V>>::full()) by {
                        let old_set = merged@[j as int].1@;
                        assert(!(old_set =~= Set::full()));
                        let x = choose|x: Option<VS::V>| !old_set.contains(x);
                        assert(!narrowed@.contains(x));
                    }
                }
                merged.set(j, (package, narrowed));
                proof {
                    let after = term::parts(merged@);
                    assert(after =~= before.update(
                        j as int,
                        (new.0, before[j as int].1.intersect(new.1)),
                    ));
                    lemma_merge_narrow(before, after, all, i as int, j as int);
                    assert(after =~= machine::tidied(all.take(i + 1))) by {
                        assert forall|m: int| 0 <= m < after.len() implies after[m]
                            == machine::tidied(all.take(i + 1))[m] by {
                            if m != j {
                                assert(before[m].0 != before[j as int].0);
                            }
                        }
                    }
                    assert forall|k: P::V| #[trigger]
                        search::mentions(after, k) <==> search::speaks_of(all.take(i + 1), k) by {
                        lemma_speaks_take(all, i as int, k);
                        lemma_same_keys(before, after, k);
                        assert(before[j as int].0 == new.0);
                        assert(search::mentions(before, new.0));
                    }
                }
            },
            None => {
                if !terms[i].1.same(&any) {
                    merged.push((terms[i].0.duplicate(), terms[i].1.duplicate()));
                    proof {
                        assert(term::parts(merged@) =~= before.push(new));
                        lemma_merge_push(before, all, i as int);
                        assert forall|k: P::V| #[trigger]
                            search::mentions(before.push(new), k) <==> search::speaks_of(
                            all.take(i + 1),
                            k,
                        ) by {
                            lemma_speaks_take(all, i as int, k);
                            lemma_mentions_one_more(before, new, k);
                        }
                    }
                } else {
                    proof {
                        lemma_merge_drop(before, all, i as int);
                        assert forall|k: P::V| #[trigger]
                            search::mentions(before, k) <==> search::speaks_of(
                            all.take(i + 1),
                            k,
                        ) by {
                            lemma_speaks_take(all, i as int, k);
                        }
                    }
                }
            },
        }
        i += 1;
    }
    assert(all.take(i as int) =~= all);
    merged
}

/// A clause without a vacuous part speaks of whatever it mentions.
proof fn lemma_names<K, V>(clause: Clause<K, V>)
    requires
        forall|i: int|
            0 <= i < clause.len() ==> (#[trigger] clause[i]).1 != Set::<Option<V>>::full(),
    ensures
        forall|k: K| #[trigger] search::mentions(clause, k) <==> search::speaks_of(clause, k),
{
    assert forall|k: K| #[trigger] search::mentions(clause, k) <==> search::speaks_of(
        clause,
        k,
    ) by {
        if search::mentions(clause, k) {
            let i = choose|i: int| 0 <= i < clause.len() && (#[trigger] clause[i]).0 == k;
            assert(clause[i].1 != Set::<Option<V>>::full());
        }
    }
}

proof fn lemma_speaks_take<K, V>(all: Clause<K, V>, i: int, k: K)
    requires
        0 <= i < all.len(),
    ensures
        search::speaks_of(all.take(i + 1), k) <==> search::speaks_of(all.take(i), k) || (all[i].0
            == k && all[i].1 != Set::<Option<V>>::full()),
{
    let shorter = all.take(i);
    let longer = all.take(i + 1);
    if search::speaks_of(shorter, k) {
        let j = choose|j: int|
            0 <= j < shorter.len() && (#[trigger] shorter[j]).0 == k && shorter[j].1 != Set::<
                Option<V>,
            >::full();
        assert(longer[j] == shorter[j]);
    }
    if search::speaks_of(longer, k) {
        let j = choose|j: int|
            0 <= j < longer.len() && (#[trigger] longer[j]).0 == k && longer[j].1 != Set::<
                Option<V>,
            >::full();
        if j < i {
            assert(shorter[j] == longer[j]);
        }
    }
    assert(longer[i] == all[i]);
}

proof fn lemma_same_keys<K, V>(a: Clause<K, V>, b: Clause<K, V>, k: K)
    requires
        a.len() == b.len(),
        forall|i: int| 0 <= i < a.len() ==> (#[trigger] a[i]).0 == b[i].0,
    ensures
        search::mentions(a, k) <==> search::mentions(b, k),
{
    if search::mentions(a, k) {
        let i = choose|i: int| 0 <= i < a.len() && (#[trigger] a[i]).0 == k;
        assert(b[i].0 == k);
    }
    if search::mentions(b, k) {
        let i = choose|i: int| 0 <= i < b.len() && (#[trigger] b[i]).0 == k;
        assert(a[i].0 == k);
    }
}

proof fn lemma_mentions_one_more<K, V>(clause: Clause<K, V>, part: (K, Set<Option<V>>), k: K)
    ensures
        search::mentions(clause.push(part), k) <==> search::mentions(clause, k) || part.0 == k,
{
    let longer = clause.push(part);
    if search::mentions(clause, k) {
        let i = choose|i: int| 0 <= i < clause.len() && (#[trigger] clause[i]).0 == k;
        assert(longer[i].0 == k);
    }
    if search::mentions(longer, k) {
        let i = choose|i: int| 0 <= i < longer.len() && (#[trigger] longer[i]).0 == k;
        if i < clause.len() {
            assert(clause[i].0 == k);
        }
    }
    assert(longer[clause.len() as int] == part);
}

proof fn lemma_violates_take<K, V>(all: Clause<K, V>, i: int, s: Map<K, V>)
    requires
        0 <= i < all.len(),
    ensures
        search::violates(all.take(i + 1), s) <==> search::violates(all.take(i), s)
            && all[i].1.contains(s.get(all[i].0)),
{
    let shorter = all.take(i);
    let longer = all.take(i + 1);
    if search::violates(longer, s) {
        assert forall|j: int| 0 <= j < shorter.len() implies (#[trigger] shorter[j]).1.contains(
            s.get(shorter[j].0),
        ) by {
            assert(longer[j] == shorter[j]);
        }
        assert(longer[i] == all[i]);
    }
    if search::violates(shorter, s) && all[i].1.contains(s.get(all[i].0)) {
        assert forall|j: int| 0 <= j < longer.len() implies (#[trigger] longer[j]).1.contains(
            s.get(longer[j].0),
        ) by {
            if j < i {
                assert(longer[j] == shorter[j]);
            }
        }
    }
}

proof fn lemma_mentions_later<K, V>(all: Clause<K, V>, i: int, k: K)
    requires
        0 <= i < all.len(),
    ensures
        search::mentions(all.take(i), k) ==> search::mentions(all.take(i + 1), k),
        search::mentions(all.take(i + 1), all[i].0),
{
    let shorter = all.take(i);
    let longer = all.take(i + 1);
    if search::mentions(shorter, k) {
        let j = choose|j: int| 0 <= j < shorter.len() && (#[trigger] shorter[j]).0 == k;
        assert(longer[j].0 == k);
    }
    assert(longer[i].0 == all[i].0);
}

proof fn lemma_merge_narrow<K, V>(
    before: Clause<K, V>,
    after: Clause<K, V>,
    all: Clause<K, V>,
    i: int,
    j: int,
)
    requires
        0 <= i < all.len(),
        0 <= j < before.len(),
        before[j].0 == all[i].0,
        after == before.update(j, (all[i].0, before[j].1.intersect(all[i].1))),
        search::distinct(before),
        forall|s: Map<K, V>| #[trigger]
            search::violates(before, s) <==> search::violates(all.take(i), s),
        forall|k: K| #[trigger]
            search::mentions(before, k) ==> search::mentions(all.take(i), k),
    ensures
        search::distinct(after),
        forall|s: Map<K, V>| #[trigger]
            search::violates(after, s) <==> search::violates(all.take(i + 1), s),
        forall|k: K| #[trigger]
            search::mentions(after, k) ==> search::mentions(all.take(i + 1), k),
{
    assert forall|a: int, b: int| 0 <= a < after.len() && 0 <= b < after.len() && a != b implies (
    #[trigger] after[a]).0 != (#[trigger] after[b]).0 by {
        assert(before[a].0 != before[b].0);
    }
    assert forall|s: Map<K, V>| #[trigger] search::violates(after, s) <==> search::violates(
        all.take(i + 1),
        s,
    ) by {
        lemma_violates_take(all, i, s);
        assert(search::violates(before, s) <==> search::violates(all.take(i), s));
        if search::violates(after, s) {
            assert(after[j].1.contains(s.get(after[j].0)));
            assert forall|a: int| 0 <= a < before.len() implies (#[trigger] before[a]).1.contains(
                s.get(before[a].0),
            ) by {
                assert(after[a].1.contains(s.get(after[a].0)));
            }
        }
        if search::violates(before, s) && all[i].1.contains(s.get(all[i].0)) {
            assert forall|a: int| 0 <= a < after.len() implies (#[trigger] after[a]).1.contains(
                s.get(after[a].0),
            ) by {
                assert(before[a].1.contains(s.get(before[a].0)));
            }
        }
    }
    assert forall|k: K| #[trigger] search::mentions(after, k) implies search::mentions(
        all.take(i + 1),
        k,
    ) by {
        let a = choose|a: int| 0 <= a < after.len() && (#[trigger] after[a]).0 == k;
        assert(before[a].0 == k);
        assert(search::mentions(before, k));
        lemma_mentions_later(all, i, k);
    }
}

proof fn lemma_merge_push<K, V>(before: Clause<K, V>, all: Clause<K, V>, i: int)
    requires
        0 <= i < all.len(),
        !search::mentions(before, all[i].0),
        search::distinct(before),
        forall|s: Map<K, V>| #[trigger]
            search::violates(before, s) <==> search::violates(all.take(i), s),
        forall|k: K| #[trigger]
            search::mentions(before, k) ==> search::mentions(all.take(i), k),
    ensures
        search::distinct(before.push(all[i])),
        forall|s: Map<K, V>| #[trigger]
            search::violates(before.push(all[i]), s) <==> search::violates(all.take(i + 1), s),
        forall|k: K| #[trigger]
            search::mentions(before.push(all[i]), k) ==> search::mentions(all.take(i + 1), k),
{
    let after = before.push(all[i]);
    assert forall|a: int, b: int| 0 <= a < after.len() && 0 <= b < after.len() && a != b implies (
    #[trigger] after[a]).0 != (#[trigger] after[b]).0 by {
        if a < before.len() {
            assert(before[a].0 == after[a].0);
        }
        if b < before.len() {
            assert(before[b].0 == after[b].0);
        }
    }
    assert forall|s: Map<K, V>| #[trigger] search::violates(after, s) <==> search::violates(
        all.take(i + 1),
        s,
    ) by {
        lemma_violates_take(all, i, s);
        assert(search::violates(before, s) <==> search::violates(all.take(i), s));
        lemma_violates_take(after, before.len() as int, s);
        assert(after.take(before.len() as int) =~= before);
        assert(after.take(before.len() as int + 1) =~= after);
    }
    assert forall|k: K| #[trigger] search::mentions(after, k) implies search::mentions(
        all.take(i + 1),
        k,
    ) by {
        let a = choose|a: int| 0 <= a < after.len() && (#[trigger] after[a]).0 == k;
        lemma_mentions_later(all, i, k);
        if a < before.len() {
            assert(before[a].0 == k);
            assert(search::mentions(before, k));
        }
    }
}

proof fn lemma_merge_drop<K, V>(before: Clause<K, V>, all: Clause<K, V>, i: int)
    requires
        0 <= i < all.len(),
        all[i].1 == Set::<Option<V>>::full(),
        forall|s: Map<K, V>| #[trigger]
            search::violates(before, s) <==> search::violates(all.take(i), s),
        forall|k: K| #[trigger]
            search::mentions(before, k) ==> search::mentions(all.take(i), k),
    ensures
        forall|s: Map<K, V>| #[trigger]
            search::violates(before, s) <==> search::violates(all.take(i + 1), s),
        forall|k: K| #[trigger]
            search::mentions(before, k) ==> search::mentions(all.take(i + 1), k),
{
    assert forall|s: Map<K, V>| #[trigger] search::violates(before, s) <==> search::violates(
        all.take(i + 1),
        s,
    ) by {
        lemma_violates_take(all, i, s);
    }
    assert forall|k: K| #[trigger] search::mentions(before, k) implies search::mentions(
        all.take(i + 1),
        k,
    ) by {
        lemma_mentions_later(all, i, k);
    }
}

/// The resolvent of two incompatibilities on the package.
fn resolvent<P: Package, VS: VersionSet>(
    a: &Vec<(P, Term<VS>)>,
    b: &Vec<(P, Term<VS>)>,
    package: &P,
    atoms: Ghost<Clause<P::V, VS::V>>,
) -> (r: Vec<(P, Term<VS>)>)
    requires
        search::clause_ok(atoms@, term::parts(a@)),
        search::clause_ok(atoms@, term::parts(b@)),
    ensures
        search::clause_ok(atoms@, term::parts(r@)),
        search::resolves(term::parts(a@), term::parts(b@), term::parts(r@), package@),
        term::parts(r@) == machine::resolvent(term::parts(a@), term::parts(b@), package@),
{
    let ghost pa = term::parts(a@);
    let ghost pb = term::parts(b@);
    let mut merged: Vec<(P, Term<VS>)> = Vec::new();
    let mut i: usize = 0;
    assert(term::parts(merged@) =~= machine::narrowed(pa, pb, package@, 0));
    while i < a.len()
        invariant
            i <= a.len(),
            pa == term::parts(a@),
            pb == term::parts(b@),
            search::clause_ok(atoms@, pa),
            search::clause_ok(atoms@, pb),
            search::clause_ok(atoms@, term::parts(merged@)),
            term::parts(merged@) == machine::narrowed(pa, pb, package@, i as int),
            forall|j: int|
                0 <= j < merged@.len() ==> {
                    &&& (#[trigger] merged@[j]).0@ != package@
                    &&& merged@[j].1@ == search::at(pa, merged@[j].0@).intersect(
                        search::at(pb, merged@[j].0@),
                    )
                },
            forall|k: P::V| #[trigger]
                search::mentions(term::parts(merged@), k) <==> k != package@ && search::mentions(
                    pa.take(i as int),
                    k,
                ),
        decreases a.len() - i,
    {
        let ghost before = term::parts(merged@);
        let ghost k = pa[i as int].0;
        proof {
            search::lemma_at(pa, i as int);
            assert(!search::mentions(pa.take(i as int), k)) by {
                if search::mentions(pa.take(i as int), k) {
                    let j = choose|j: int|
                        0 <= j < pa.take(i as int).len() && (#[trigger] pa.take(i as int)[j]).0
                            == k;
                    assert(pa[j].0 == k);
                }
            }
        }
        if !a[i].0.same(package) {
            let narrowed = match find_term(b, &a[i].0) {
                Some(j) => {
                    proof {
                        search::lemma_at(pb, j as int);
                    }
                    a[i].1.intersection(&b[j].1)
                },
                None => {
                    assert(a@[i as int].1@ =~= pa[i as int].1.intersect(Set::full()));
                    a[i].1.duplicate()
                },
            };
            assert(narrowed@ == search::at(pa, k).intersect(search::at(pb, k)));
            merged.push((a[i].0.duplicate(), narrowed));
            proof {
                assert(term::parts(merged@) =~= before.push((k, narrowed@)));
                search::lemma_at_respects(atoms@, pa, k);
                search::lemma_at_respects(atoms@, pb, k);
                search::lemma_respects_ops(atoms@, k, search::at(pa, k), search::at(pb, k));
                assert(narrowed@ != Set::<Option<VS::V>>::full()) by {
                    let wider = pa[i as int].1;
                    assert(!(wider =~= Set::full()));
                    let x = choose|x: Option<VS::V>| !wider.contains(x);
                    assert(!narrowed@.contains(x));
                }
                lemma_clause_push(atoms@, before, (k, narrowed@));
            }
        }
        proof {
            assert forall|q: P::V| #[trigger] search::mentions(term::parts(merged@), q) <==> q
                != package@ && search::mentions(pa.take(i + 1), q) by {
                lemma_mentions_push(pa, i as int, q);
                lemma_mentions_push(
                    term::parts(merged@),
                    before.len() as int,
                    q,
                );
                assert(search::mentions(before, q) <==> q != package@ && search::mentions(
                    pa.take(i as int),
                    q,
                ));
                if k != package@ {
                    assert(term::parts(merged@).take(before.len() as int) =~= before);
                    assert(term::parts(merged@).take(before.len() as int + 1) =~= term::parts(
                        merged@,
                    ));
                }
            }
        }
        i += 1;
    }
    assert(pa.take(i as int) =~= pa);
    let ghost first = machine::narrowed(pa, pb, package@, pa.len() as int);
    assert(first + machine::added(pa, pb, package@, 0) =~= first);
    let mut i: usize = 0;
    while i < b.len()
        invariant
            i <= b.len(),
            pa == term::parts(a@),
            pb == term::parts(b@),
            search::clause_ok(atoms@, pa),
            search::clause_ok(atoms@, pb),
            search::clause_ok(atoms@, term::parts(merged@)),
            term::parts(merged@) == first + machine::added(pa, pb, package@, i as int),
            forall|j: int|
                0 <= j < merged@.len() ==> {
                    &&& (#[trigger] merged@[j]).0@ != package@
                    &&& merged@[j].1@ == search::at(pa, merged@[j].0@).intersect(
                        search::at(pb, merged@[j].0@),
                    )
                },
            forall|k: P::V| #[trigger]
                search::mentions(term::parts(merged@), k) <==> k != package@ && (search::mentions(
                    pa,
                    k,
                ) || search::mentions(pb.take(i as int), k)),
        decreases b.len() - i,
    {
        let ghost before = term::parts(merged@);
        let ghost k = pb[i as int].0;
        proof {
            search::lemma_at(pb, i as int);
            assert(!search::mentions(pb.take(i as int), k)) by {
                if search::mentions(pb.take(i as int), k) {
                    let j = choose|j: int|
                        0 <= j < pb.take(i as int).len() && (#[trigger] pb.take(i as int)[j]).0
                            == k;
                    assert(pb[j].0 == k);
                }
            }
        }
        let fresh = !b[i].0.same(package) && find_term(a, &b[i].0).is_none();
        if fresh {
            let narrowed = b[i].1.duplicate();
            assert(narrowed@ =~= search::at(pa, k).intersect(search::at(pb, k)));
            merged.push((b[i].0.duplicate(), narrowed));
            proof {
                assert(term::parts(merged@) =~= before.push((k, narrowed@)));
                lemma_clause_push(atoms@, before, (k, narrowed@));
                let more = machine::added(pa, pb, package@, i as int);
                assert((first + more).push((k, narrowed@)) =~= first + more.push((k, narrowed@)));
            }
        }
        proof {
            assert forall|q: P::V| #[trigger] search::mentions(term::parts(merged@), q) <==> q
                != package@ && (search::mentions(pa, q) || search::mentions(pb.take(i + 1), q)) by {
                lemma_mentions_push(pb, i as int, q);
                assert(search::mentions(before, q) <==> q != package@ && (search::mentions(pa, q)
                    || search::mentions(pb.take(i as int), q)));
                if fresh {
                    lemma_mentions_push(term::parts(merged@), before.len() as int, q);
                    assert(term::parts(merged@).take(before.len() as int) =~= before);
                    assert(term::parts(merged@).take(before.len() as int + 1) =~= term::parts(
                        merged@,
                    ));
                }
            }
        }
        i += 1;
    }
    assert(pb.take(i as int) =~= pb);
    let ghost without = term::parts(merged@);
    let ghost k = package@;
    if let Some(x) = find_term(a, package) {
        if let Some(y) = find_term(b, package) {
            let either = a[x].1.union(&b[y].1);
            proof {
                search::lemma_at(pa, x as int);
                search::lemma_at(pb, y as int);
            }
            if !either.same(&Term::any()) {
                let ghost set = either@;
                merged.push((package.duplicate(), either));
                proof {
                    assert(term::parts(merged@) =~= without.push((k, set)));
                    search::lemma_respects_ops(atoms@, k, search::at(pa, k), search::at(pb, k));
                    assert(!search::mentions(without, k));
                    lemma_clause_push(atoms@, without, (k, set));
                    search::lemma_at(term::parts(merged@), without.len() as int);
                }
            }
        }
    }
    proof {
        let r = term::parts(merged@);
        assert forall|q: P::V| #[trigger] search::at(r, q) == if q == k {
            search::at(pa, q).union(search::at(pb, q))
        } else {
            search::at(pa, q).intersect(search::at(pb, q))
        } by {
            if q == k {
                assert(!search::mentions(without, k));
                if !search::mentions(pa, k) || !search::mentions(pb, k) {
                    assert(search::at(pa, q).union(search::at(pb, q)) =~= Set::full());
                }
            } else {
                assert(search::mentions(without, q) <==> search::mentions(pa, q)
                    || search::mentions(pb, q));
                if search::mentions(without, q) {
                    let j = choose|j: int|
                        0 <= j < without.len() && (#[trigger] without[j]).0 == q;
                    assert(r[j] == without[j]);
                    assert(merged@[j].1@ == search::at(pa, q).intersect(search::at(pb, q)));
                    search::lemma_at(r, j);
                } else {
                    assert(!search::mentions(r, q)) by {
                        if search::mentions(r, q) {
                            let j = choose|j: int| 0 <= j < r.len() && (#[trigger] r[j]).0 == q;
                            assert(without[j].0 == q);
                        }
                    }
                    assert(search::at(pa, q).intersect(search::at(pb, q)) =~= Set::full());
                }
            }
        }
    }
    merged
}

proof fn lemma_clause_push<K, V>(
    atoms: Clause<K, V>,
    clause: Clause<K, V>,
    part: (K, Set<Option<V>>),
)
    requires
        search::clause_ok(atoms, clause),
        !search::mentions(clause, part.0),
        part.1 != Set::<Option<V>>::full(),
        search::respects(atoms, part.0, part.1),
        search::mentions(atoms, part.0),
    ensures
        search::clause_ok(atoms, clause.push(part)),
{
    let longer = clause.push(part);
    assert forall|i: int, j: int| 0 <= i < longer.len() && 0 <= j < longer.len() && i != j implies (
    #[trigger] longer[i]).0 != (#[trigger] longer[j]).0 by {
        if i < clause.len() {
            assert(clause[i].0 == longer[i].0);
        }
        if j < clause.len() {
            assert(clause[j].0 == longer[j].0);
        }
    }
    assert forall|i: int| 0 <= i < longer.len() implies {
        &&& (#[trigger] longer[i]).1 != Set::<Option<V>>::full()
        &&& search::respects(atoms, longer[i].0, longer[i].1)
        &&& search::mentions(atoms, longer[i].0)
    } by {
        if i < clause.len() {
            assert(clause[i] == longer[i]);
        }
    }
}

proof fn lemma_mentions_push<K, V>(clause: Clause<K, V>, i: int, k: K)
    ensures
        0 <= i < clause.len() ==> (search::mentions(clause.take(i + 1), k) <==> search::mentions(
            clause.take(i),
            k,
        ) || clause[i].0 == k),
{
    if 0 <= i < clause.len() {
        let shorter = clause.take(i);
        let longer = clause.take(i + 1);
        lemma_mentions_later(clause, i, k);
        if search::mentions(longer, k) {
            let j = choose|j: int| 0 <= j < longer.len() && (#[trigger] longer[j]).0 == k;
            if j < i {
                assert(shorter[j].0 == k);
            }
        }
    }
}

/// The incompatibilities known so far, and the steps taken.
#[verifier::reject_recursive_types(P)]
#[verifier::reject_recursive_types(VS)]
pub struct State<P: Package, VS: VersionSet, M> {
    pub store: Vec<Incompatibility<P, VS, M>>,
    pub trail: Vec<Assignment<P, VS>>,
    pub atoms: Ghost<Clause<P::V, VS::V>>,
}

impl<P: Package, VS: VersionSet, M> State<P, VS, M> {
    pub open spec fn clauses(self) -> Seq<Clause<P::V, VS::V>> {
        Seq::new(self.store@.len(), |i: int| self.store@[i].clause())
    }

    pub open spec fn entries(self) -> Seq<Entry<P::V, VS::V>> {
        entries(self.trail@)
    }

    pub open spec fn ok(self) -> bool {
        &&& search::store_ok(self.atoms@, self.clauses())
        &&& search::trail_ok(self.atoms@, self.clauses(), self.entries())
        &&& decisions_ok(self.trail@)
        &&& forall|i: int| 0 <= i < self.store@.len() ==> (#[trigger] self.store@[i]).justified()
        &&& forall|i: int| 0 <= i < self.clauses().len() ==> (#[trigger] self.clauses()[i]).len() > 0
    }

    /// Every fact that an incompatibility rests on is as described.
    pub open spec fn rests_on(self, fact: spec_fn(External<P, VS, M>) -> bool) -> bool {
        forall|i: int|
            0 <= i < self.store@.len() ==> (#[trigger] self.store@[i]).tree.rests_on(fact)
    }

    /// How much of the search is left.
    pub open spec fn remaining(self) -> nat {
        progress::remaining(self.atoms@, self.entries())
    }

    /// The later state has all the incompatibilities of the earlier one, and others only that are
    /// single facts.
    pub open spec fn grows_by_facts(self, earlier: Self) -> bool {
        &&& earlier.store@.is_prefix_of(self.store@)
        &&& forall|c: int|
            earlier.store@.len() <= c < self.store@.len() ==> (#[trigger]
            self.store@[c]).tree.is_fact()
    }

    /// Every incompatibility is a single fact.
    pub open spec fn holds_facts(self) -> bool {
        forall|c: int| 0 <= c < self.store@.len() ==> (#[trigger] self.store@[c]).tree.is_fact()
    }

    /// The later state has the same base, and no fewer incompatibilities.
    pub open spec fn extends(self, earlier: Self) -> bool {
        &&& self.atoms@ == earlier.atoms@
        &&& earlier.store@.is_prefix_of(self.store@)
        &&& earlier.clauses().is_prefix_of(self.clauses())
        &&& forall|fact: spec_fn(External<P, VS, M>) -> bool| #[trigger]
            earlier.rests_on(fact) ==> self.rests_on(fact)
    }

    pub fn new() -> (r: Self)
        ensures
            r.ok(),
            r.clauses() == Seq::<Clause<P::V, VS::V>>::empty(),
            r.entries() == Seq::<Entry<P::V, VS::V>>::empty(),
            r.trail@.len() == 0,
            r.holds_facts(),
            forall|fact: spec_fn(External<P, VS, M>) -> bool| #[trigger] r.rests_on(fact),
    {
        let r = State { store: Vec::new(), trail: Vec::new(), atoms: Ghost(Seq::empty()) };
        proof {
            reveal(search::trail_ok);
            assert(r.clauses() =~= Seq::empty());
            assert(r.entries() =~= Seq::empty());
        }
        r
    }

    /// The number of decisions among the first `n` steps.
    pub fn level_at(&self, n: usize) -> (r: usize)
        requires
            n <= self.trail@.len(),
        ensures
            r == search::level(self.entries().take(n as int)),
            r <= n,
    {
        let mut i: usize = 0;
        let mut level: usize = 0;
        while i < n
            invariant
                i <= n <= self.trail@.len(),
                level <= i,
                level == decisions_among(self.trail@, i as int),
            decreases n - i,
        {
            if self.trail[i].cause.is_none() {
                level += 1;
            }
            i += 1;
        }
        level
    }

    /// What the first `n` steps leave open for the package, if they say anything about it.
    fn assigned_term(&self, n: usize, package: &P) -> (r: Option<Term<VS>>)
        requires
            n <= self.trail@.len(),
        ensures
            r is Some <==> search::assigned(self.entries().take(n as int), package@),
            match r {
                Some(t) => t@ == search::open_states(self.entries().take(n as int), package@),
                None => search::open_states(self.entries().take(n as int), package@) == Set::<
                    Option<VS::V>,
                >::full(),
            },
    {
        let ghost all = self.entries();
        let mut i = n;
        while i > 0
            invariant
                i <= n <= self.trail@.len(),
                all == self.entries(),
                search::open_states(all.take(n as int), package@) == search::open_states(
                    all.take(i as int),
                    package@,
                ),
                forall|j: int| i <= j < n ==> (#[trigger] all[j]).key != package@,
            decreases i,
        {
            i -= 1;
            assert(all.take(i + 1).drop_last() =~= all.take(i as int));
            if self.trail[i].package.same(package) {
                assert(all.take(n as int)[i as int].key == package@);
                return Some(self.trail[i].term.duplicate());
            }
        }
        None
    }

    /// What the first `n` steps leave open for the package.
    pub fn open_term(&self, n: usize, package: &P) -> (r: Term<VS>)
        requires
            n <= self.trail@.len(),
        ensures
            r@ == search::open_states(self.entries().take(n as int), package@),
    {
        match self.assigned_term(n, package) {
            Some(term) => term,
            None => Term::any(),
        }
    }

    /// Whether all terms are certain after the first `n` steps.
    fn holds_at(&self, terms: &Vec<(P, Term<VS>)>, n: usize) -> (r: bool)
        requires
            n <= self.trail@.len(),
        ensures
            r == search::satisfied(term::parts(terms@), self.entries().take(n as int)),
    {
        let ghost clause = term::parts(terms@);
        let ghost trail = self.entries().take(n as int);
        let mut i: usize = 0;
        while i < terms.len()
            invariant
                n <= self.trail@.len(),
                i <= terms.len(),
                clause == term::parts(terms@),
                trail == self.entries().take(n as int),
                forall|j: int|
                    0 <= j < i ==> search::open_states(trail, (#[trigger] clause[j]).0).subset_of(
                        clause[j].1,
                    ),
            decreases terms.len() - i,
        {
            if !self.open_term(n, &terms[i].0).subset_of(&terms[i].1) {
                assert(clause[i as int].1 == terms@[i as int].1@);
                return false;
            }
            i += 1;
        }
        true
    }

    /// Whether all terms are certain after the first `n` steps, given what else is known of the
    /// package.
    fn holds_at_given(
        &self,
        terms: &Vec<(P, Term<VS>)>,
        n: usize,
        package: &P,
        known: &Term<VS>,
    ) -> (r: bool)
        requires
            n <= self.trail@.len(),
        ensures
            r == search::satisfied_within(
                term::parts(terms@),
                self.entries().take(n as int),
                package@,
                known@,
            ),
    {
        let ghost clause = term::parts(terms@);
        let ghost trail = self.entries().take(n as int);
        let mut i: usize = 0;
        while i < terms.len()
            invariant
                n <= self.trail@.len(),
                i <= terms.len(),
                clause == term::parts(terms@),
                trail == self.entries().take(n as int),
                forall|j: int|
                    0 <= j < i ==> if (#[trigger] clause[j]).0 == package@ {
                        search::open_states(trail, package@).intersect(known@).subset_of(
                            clause[j].1,
                        )
                    } else {
                        search::open_states(trail, clause[j].0).subset_of(clause[j].1)
                    },
            decreases terms.len() - i,
        {
            let open = self.open_term(n, &terms[i].0);
            let holds = if terms[i].0.same(package) {
                open.intersection(known).subset_of(&terms[i].1)
            } else {
                open.subset_of(&terms[i].1)
            };
            assert(clause[i as int] == (terms@[i as int].0@, terms@[i as int].1@));
            if !holds {
                return false;
            }
            i += 1;
        }
        true
    }

    /// The incompatibility is about the package, all its other terms are certain, and that one may
    /// hold.
    pub open spec fn pressing(self, i: int, k: P::V) -> bool {
        &&& 0 <= i < self.clauses().len()
        &&& search::mentions(self.clauses()[i], k)
        &&& search::satisfied_except(self.clauses()[i], self.entries(), k)
        &&& !search::open_states(self.entries(), k).disjoint(search::at(self.clauses()[i], k))
    }

    /// Some incompatibility about the package calls for a step.
    pub open spec fn calls_for_step(self, k: P::V) -> bool {
        exists|i: int| #[trigger] self.pressing(i, k)
    }

    /// The incompatibility is about the package that was given, or about one of those that the steps
    /// from `base` on have narrowed.
    pub open spec fn is_watched(self, base: int, next: Option<P::V>, j: int) -> bool {
        ||| next is Some && search::mentions(self.clauses()[j], next->0)
        ||| exists|t: int|
            base <= t < self.entries().len() && search::mentions(
                self.clauses()[j],
                (#[trigger] self.entries()[t]).key,
            )
    }

    /// No incompatibility that is watched calls for a step.
    pub open spec fn is_quiet(self, base: int, next: Option<P::V>) -> bool {
        forall|j: int, k: P::V|
            self.is_watched(base, next, j) ==> !(#[trigger] self.pressing(j, k))
    }

    /// Every watched incompatibility that calls for a step is about a package that waits, or is still
    /// to be looked at for the current one: those before the given place are.
    #[verifier::opaque]
    spec fn is_alert(
        self,
        base: int,
        next: Option<P::V>,
        waiting: Seq<P::V>,
        current: P::V,
        i: int,
    ) -> bool {
        forall|j: int, k: P::V|
            self.is_watched(base, next, j) && #[trigger] self.pressing(j, k) ==> waits(
                waiting,
                self.clauses()[j],
            ) || (j < i && search::mentions(self.clauses()[j], current))
    }

    /// The next package is looked at.
    proof fn lemma_alert_pop(
        self,
        base: int,
        next: Option<P::V>,
        waiting: Seq<P::V>,
        gone: P::V,
    )
        requires
            self.is_alert(base, next, waiting, gone, 0),
            waiting.len() > 0,
        ensures
            self.is_alert(
                base,
                next,
                waiting.drop_last(),
                waiting.last(),
                self.clauses().len() as int,
            ),
    {
        reveal(State::is_alert);
        let rest = waiting.drop_last();
        assert forall|j: int, k: P::V|
            self.is_watched(base, next, j) && #[trigger] self.pressing(j, k) implies waits(
            rest,
            self.clauses()[j],
        ) || (j < self.clauses().len() && search::mentions(self.clauses()[j], waiting.last())) by {
            let b = choose|b: int|
                0 <= b < waiting.len() && search::mentions(self.clauses()[j], #[trigger] waiting[b]);
            if b < rest.len() {
                assert(rest[b] == waiting[b]);
            }
        }
    }

    /// One incompatibility is not about the package, or calls for no step.
    proof fn lemma_alert_skip(
        self,
        base: int,
        next: Option<P::V>,
        waiting: Seq<P::V>,
        current: P::V,
        i: int,
    )
        requires
            self.is_alert(base, next, waiting, current, i + 1),
            !search::mentions(self.clauses()[i], current) || forall|k: P::V|
                !#[trigger] self.pressing(i, k),
        ensures
            self.is_alert(base, next, waiting, current, i),
    {
        reveal(State::is_alert);
    }

    /// One incompatibility has called for a step, which was taken.
    proof fn lemma_alert_derive(
        self,
        before: Self,
        base: int,
        next: Option<P::V>,
        fewer: Seq<P::V>,
        waiting: Seq<P::V>,
        current: P::V,
        i: int,
        narrowed: P::V,
    )
        requires
            before.is_alert(base, next, fewer, current, i + 1),
            self.store == before.store,
            self.entries().len() == before.entries().len() + 1,
            self.entries().drop_last() == before.entries(),
            self.entries().last().key == narrowed,
            0 <= base <= before.entries().len(),
            0 <= i < self.clauses().len(),
            search::mentions(self.clauses()[i], narrowed),
            waiting.contains(narrowed),
            forall|k: P::V| fewer.contains(k) ==> #[trigger] waiting.contains(k),
        ensures
            self.is_alert(base, next, waiting, current, i),
    {
        reveal(State::is_alert);
        let n = before.entries().len() as int;
        assert(self.clauses() == before.clauses());
        assert forall|j: int, k: P::V|
            self.is_watched(base, next, j) && #[trigger] self.pressing(j, k) implies waits(
            waiting,
            self.clauses()[j],
        ) || (j < i && search::mentions(self.clauses()[j], current)) by {
            let clause = self.clauses()[j];
            if search::mentions(clause, narrowed) {
                let b = choose|b: int| 0 <= b < waiting.len() && waiting[b] == narrowed;
                assert(search::mentions(clause, waiting[b]));
            } else {
                assert forall|q: P::V| search::mentions(clause, q) implies search::open_states(
                    self.entries(),
                    q,
                ) == #[trigger] search::open_states(before.entries(), q) by {}
                assert(search::satisfied_except(clause, before.entries(), k)) by {
                    assert forall|m: int|
                        0 <= m < clause.len() && (#[trigger] clause[m]).0 != k implies
                        search::open_states(before.entries(), clause[m].0).subset_of(clause[m].1) by {
                        assert(search::mentions(clause, clause[m].0));
                    }
                }
                assert(before.pressing(j, k));
                assert(before.is_watched(base, next, j)) by {
                    if !(next is Some && search::mentions(clause, next->0)) {
                        let t = choose|t: int|
                            base <= t < self.entries().len() && search::mentions(
                                clause,
                                (#[trigger] self.entries()[t]).key,
                            );
                        assert(t < n);
                        assert(self.entries().drop_last()[t] == self.entries()[t]);
                    }
                }
                if waits(fewer, clause) {
                    let b = choose|b: int|
                        0 <= b < fewer.len() && search::mentions(clause, #[trigger] fewer[b]);
                    assert(fewer.contains(fewer[b]));
                    assert(waiting.contains(fewer[b]));
                    let c = choose|c: int| 0 <= c < waiting.len() && waiting[c] == fewer[b];
                    assert(search::mentions(clause, waiting[c]));
                } else {
                    assert(j != i);
                }
            }
        }
    }

    /// After going back, the one step taken is about a package that waits.
    proof fn lemma_alert_back(self, current: P::V)
        requires
            self.entries().len() > 0,
        ensures
            self.is_alert(
                self.entries().len() - 1,
                None,
                seq![self.entries().last().key],
                current,
                0,
            ),
    {
        reveal(State::is_alert);
        let base = self.entries().len() - 1;
        let waiting = seq![self.entries().last().key];
        assert forall|j: int, k: P::V|
            self.is_watched(base, None, j) && #[trigger] self.pressing(j, k) implies waits(
            waiting,
            self.clauses()[j],
        ) by {
            assert(search::mentions(self.clauses()[j], waiting[0]));
        }
    }

    /// At first the package that was given waits.
    proof fn lemma_alert_start(self, next: P::V, current: P::V)
        ensures
            self.is_alert(
                self.entries().len() as int,
                Some(next),
                seq![next],
                current,
                0,
            ),
    {
        reveal(State::is_alert);
        let waiting = seq![next];
        assert forall|j: int, k: P::V|
            self.is_watched(self.entries().len() as int, Some(next), j)
                && #[trigger] self.pressing(j, k) implies waits(waiting, self.clauses()[j]) by {
            assert(search::mentions(self.clauses()[j], waiting[0]));
        }
    }

    /// Where nothing is left to look at for it, the current package does not matter.
    proof fn lemma_alert_current(
        self,
        base: int,
        next: Option<P::V>,
        waiting: Seq<P::V>,
        current: P::V,
        other: P::V,
    )
        requires
            self.is_alert(base, next, waiting, current, 0),
        ensures
            self.is_alert(base, next, waiting, other, 0),
    {
        reveal(State::is_alert);
    }

    /// Where nothing waits, nothing calls for a step.
    proof fn lemma_alert_done(
        self,
        base: int,
        next: Option<P::V>,
        waiting: Seq<P::V>,
        current: P::V,
    )
        requires
            self.is_alert(base, next, waiting, current, 0),
            waiting.len() == 0,
        ensures
            self.is_quiet(base, next),
    {
        reveal(State::is_alert);
    }

    /// How the incompatibility stands to the trail.
    pub fn relation(&self, i: usize) -> (r: Relation)
        requires
            i < self.store@.len(),
            search::clause_ok(self.atoms@, self.clauses()[i as int]),
        ensures
            r is Satisfied <==> search::satisfied(self.clauses()[i as int], self.entries()),
            r matches Relation::AlmostSatisfied(j) ==> {
                let clause = self.clauses()[i as int];
                let k = clause[j as int].0;
                &&& j < clause.len()
                &&& search::satisfied_except(clause, self.entries(), k)
                &&& !search::open_states(self.entries(), k).subset_of(clause[j as int].1)
                &&& !search::open_states(self.entries(), k).disjoint(clause[j as int].1)
            },
            r is Inconclusive ==> forall|k: P::V| !#[trigger] self.pressing(i as int, k),
            machine::standing(self.clauses()[i as int], self.entries()) == match r {
                Relation::Satisfied => Standing::Satisfied,
                Relation::AlmostSatisfied(j) => Standing::Calls(j as int),
                Relation::Inconclusive => Standing::Open,
            },
    {
        let n = self.trail.len();
        let terms = &self.store[i].terms;
        let ghost clause = self.clauses()[i as int];
        let ghost trail = self.entries();
        assert(trail.take(n as int) =~= trail);
        let mut open_at: Option<usize> = None;
        let mut m: usize = 0;
        while m < terms.len()
            invariant
                i < self.store@.len(),
                n == self.trail@.len(),
                trail == self.entries(),
                trail.take(n as int) == trail,
                *terms == self.store@[i as int].terms,
                clause == term::parts(terms@),
                search::distinct(clause),
                m <= terms@.len(),
                match open_at {
                    None => forall|j: int|
                        0 <= j < m ==> search::open_states(
                            trail,
                            (#[trigger] clause[j]).0,
                        ).subset_of(clause[j].1),
                    Some(at) => {
                        &&& at < m
                        &&& !search::open_states(trail, clause[at as int].0).subset_of(
                            clause[at as int].1,
                        )
                        &&& !search::open_states(trail, clause[at as int].0).disjoint(
                            clause[at as int].1,
                        )
                        &&& forall|j: int|
                            0 <= j < m && j != at ==> search::open_states(
                                trail,
                                (#[trigger] clause[j]).0,
                            ).subset_of(clause[j].1)
                    },
                },
            decreases terms@.len() - m,
        {
            let open = self.open_term(n, &terms[m].0);
            assert(clause[m as int].0 == terms@[m as int].0@);
            if !open.subset_of(&terms[m].1) {
                if open_at.is_some() || open.is_disjoint(&terms[m].1) {
                    proof {
                        assert forall|k: P::V| !#[trigger] self.pressing(i as int, k) by {
                            if self.pressing(i as int, k) {
                                assert(k == clause[m as int].0);
                                search::lemma_at(clause, m as int);
                                if let Some(at) = open_at {
                                    assert(clause[at as int].0 == k);
                                }
                            }
                        }
                    }
                    proof {
                        assert(!search::satisfied(clause, trail));
                        assert forall|j: int| !#[trigger] machine::calls_at(clause, trail, j) by {
                            if machine::calls_at(clause, trail, j) {
                                search::lemma_at(clause, j);
                                assert(self.pressing(i as int, clause[j].0));
                            }
                        }
                    }
                    return Relation::Inconclusive;
                }
                open_at = Some(m);
            }
            m += 1;
        }
        match open_at {
            None => Relation::Satisfied,
            Some(at) => {
                proof {
                    let k = clause[at as int].0;
                    assert forall|j: int| 0 <= j < clause.len() && (#[trigger] clause[j]).0
                        != k implies search::open_states(trail, clause[j].0).subset_of(
                        clause[j].1,
                    ) by {
                        assert(j != at);
                    }
                    assert(machine::calls_at(clause, trail, at as int));
                    machine::lemma_calls_at(clause, trail, at as int);
                }
                Relation::AlmostSatisfied(at)
            },
        }
    }

    /// Take the step that an almost satisfied incompatibility calls for.
    pub fn derive(&mut self, i: usize, j: usize)
        requires
            old(self).ok(),
            i < old(self).store@.len(),
            j < old(self).clauses()[i as int].len(),
            search::satisfied_except(
                old(self).clauses()[i as int],
                old(self).entries(),
                old(self).clauses()[i as int][j as int].0,
            ),
            !search::open_states(
                old(self).entries(),
                old(self).clauses()[i as int][j as int].0,
            ).subset_of(old(self).clauses()[i as int][j as int].1),
            !search::open_states(
                old(self).entries(),
                old(self).clauses()[i as int][j as int].0,
            ).disjoint(old(self).clauses()[i as int][j as int].1),
        ensures
            final(self).ok(),
            final(self).store == old(self).store,
            final(self).atoms == old(self).atoms,
            final(self).trail@.len() == old(self).trail@.len() + 1,
            final(self).trail@.drop_last() == old(self).trail@,
            final(self).trail@.last().package@ == old(self).clauses()[i as int][j as int].0,
            final(self).trail@.last().cause == Some(i),
            ({
                let k = old(self).clauses()[i as int][j as int].0;
                let e = final(self).entries().last();
                &&& final(self).entries() == old(self).entries().push(e)
                &&& e.key == k
                &&& e.cause == Some(i as int)
                &&& e.set == search::open_states(old(self).entries(), k).intersect(
                    search::at(old(self).clauses()[i as int], k).complement(),
                )
                &&& e.level == search::level(old(self).entries())
                &&& search::entry_ok(old(self).atoms@, old(self).clauses(), old(self).entries(), e)
            }),
    {
        let n = self.trail.len();
        let ghost clause = self.clauses()[i as int];
        let ghost k = clause[j as int].0;
        assert(self.entries().take(n as int) =~= self.entries());
        let package = self.store[i].terms[j].0.duplicate();
        let term = self.open_term(n, &package).intersection(&self.store[i].terms[j].1.negate());
        let step = Assignment { package, term, cause: Some(i), version: None };
        proof {
            assert(search::clause_ok(self.atoms@, self.clauses()[i as int]));
            search::lemma_at(clause, j as int);
            let e = search::lemma_derivation(
                self.atoms@,
                self.clauses(),
                self.entries(),
                i as int,
                k,
            );
            search::lemma_trail_push(self.atoms@, self.clauses(), self.entries(), e);
            lemma_entries_push(self.trail@, step);
            assert(self.trail@.push(step).drop_last() =~= self.trail@);
        }
        self.trail.push(step);
    }

    /// Give up the steps above the level.
    fn backtrack(&mut self, level: usize)
        requires
            old(self).ok(),
        ensures
            final(self).ok(),
            final(self).store == old(self).store,
            final(self).atoms == old(self).atoms,
            final(self).entries() == progress::cut(old(self).entries(), level as int),
            selection(final(self).trail@).submap_of(selection(old(self).trail@)),
            decisions(final(self).trail@) == if level <= decisions(old(self).trail@).len() {
                decisions(old(self).trail@).take(level as int)
            } else {
                decisions(old(self).trail@)
            },
    {
        let ghost start = self.entries();
        let ghost made = decisions(self.trail@);
        proof {
            lemma_decisions(self.trail@);
            assert(made =~= made.take(made.len() as int));
        }
        while self.trail.len() > 0 && self.level_at(self.trail.len()) > level
            invariant
                self.store == old(self).store,
                self.atoms == old(self).atoms,
                search::trail_ok(self.atoms@, self.clauses(), self.entries()),
                decisions_ok(self.trail@),
                selection(self.trail@).submap_of(selection(old(self).trail@)),
                progress::cut(self.entries(), level as int) == progress::cut(start, level as int),
                made == decisions(old(self).trail@),
                decisions(self.trail@).len() <= made.len(),
                decisions(self.trail@) == made.take(decisions(self.trail@).len() as int),
                decisions(self.trail@).len() == made.len() || decisions(self.trail@).len() >= level,
            decreases self.trail@.len(),
        {
            let ghost before = self.trail@;
            assert(entries(before).take(before.len() as int) =~= entries(before));
            proof {
                lemma_decisions(before);
                let fewer = decisions(before.drop_last());
                assert(fewer =~= made.take(fewer.len() as int)) by {
                    assert forall|d: int| 0 <= d < fewer.len() implies fewer[d] == made[d] by {
                        assert(decisions(before)[d] == fewer[d]);
                    }
                }
            }
            let _ = self.trail.pop();
            proof {
                let n = before.len() - 1;
                assert(self.trail@ =~= before.take(n));
                assert(self.trail@ =~= before.drop_last());
                lemma_selection_grows(self.atoms@, self.clauses(), before);
                lemma_submap_chain(
                    selection(self.trail@),
                    selection(before),
                    selection(old(self).trail@),
                );
                lemma_entries_take(before, n);
                assert(entries(before).drop_last() =~= entries(before).take(n));
                search::lemma_trail_take(self.atoms@, self.clauses(), entries(before), n);
            }
        }
        proof {
            let n = self.trail@.len() as int;
            assert(self.entries().take(n) =~= self.entries());
            if n == 0 {
                assert(self.entries().len() == 0);
            }
            lemma_decisions(self.trail@);
        }
    }

    /// Add an incompatibility that is not part of the base.
    fn learn(&mut self, learned: Incompatibility<P, VS, M>)
        requires
            old(self).ok(),
            search::clause_ok(old(self).atoms@, learned.clause()),
            learned.clause().len() > 0,
            learned.justified(),
        ensures
            final(self).ok(),
            final(self).trail == old(self).trail,
            final(self).atoms == old(self).atoms,
            final(self).store@ == old(self).store@.push(learned),
            final(self).clauses() == old(self).clauses().push(learned.clause()),
    {
        let ghost before = self.clauses();
        self.store.push(learned);
        proof {
            assert(self.clauses() =~= before.push(learned.clause()));
            assert forall|i: int| 0 <= i < self.clauses().len() implies search::clause_ok(
                self.atoms@,
                #[trigger] self.clauses()[i],
            ) && self.clauses()[i].len() > 0 by {
                if i < before.len() {
                    assert(self.clauses()[i] == before[i]);
                }
            }
            assert(before.is_prefix_of(self.clauses()));
            search::lemma_trail_grow(
                self.atoms@,
                before,
                self.entries(),
                self.atoms@,
                self.clauses(),
            );
            assert forall|i: int| 0 <= i < self.store@.len() implies (
            #[trigger] self.store@[i]).justified() by {
                if i < before.len() {
                    assert(self.store@[i] == old(self).store@[i]);
                }
            }
        }
    }
}

/// Where conflict resolution went back to.
pub struct Backjump {
    /// The incompatibility that was learned.
    pub cause: usize,
    /// The level before.
    pub from_level: usize,
    /// The level after.
    pub to_level: usize,
}

/// Whether the terms hold together in every selection of the root package at its version.
fn is_terminal<P: Package, VS: VersionSet>(
    terms: &Vec<(P, Term<VS>)>,
    root: &P,
    version: &VS::V,
) -> (r: bool)
    ensures
        r ==> forall|s: Map<P::V, VS::V>|
            s.get(root@) == Some(*version) ==> #[trigger] search::violates(term::parts(terms@), s),
        terms@.len() == 0 ==> r,
        r == machine::is_final(term::parts(terms@), root@, *version),
{
    if terms.len() == 0 {
        true
    } else if terms.len() > 1 {
        false
    } else {
        terms[0].0.same(root) && terms[0].1.contains(version)
    }
}

impl<P: Package, VS: VersionSet, M> State<P, VS, M> {
    /// The last step is a decision, and without it the incompatibility is not satisfied.
    pub open spec fn hinges_on_decision(self, i: int) -> bool {
        &&& self.entries().len() > 0
        &&& self.entries().last().cause is None
        &&& !search::satisfied(self.clauses()[i], self.entries().drop_last())
    }

    /// Find the root cause of a satisfied incompatibility, go back to where it is almost satisfied,
    /// and take the step that it calls for.
    #[verifier::rlimit(100)]
    pub fn resolve_conflict(&mut self, i: usize, root: &P, version: &VS::V) -> (r: Result<
        Backjump,
        Arc<DerivationTree<P, VS, M>>,
    >)
        requires
            old(self).ok(),
            i < old(self).store@.len(),
            search::satisfied(old(self).clauses()[i as int], old(self).entries()),
        ensures
            final(self).ok(),
            final(self).extends(*old(self)),
            selection(final(self).trail@).submap_of(selection(old(self).trail@)),
            search::grounded(old(self).entries()) ==> search::grounded(final(self).entries()),
            match r {
                Ok(jump) => {
                    &&& final(self).remaining() < old(self).remaining()
                    &&& jump.cause < final(self).store@.len()
                    &&& jump.to_level < jump.from_level
                    &&& jump.from_level == decisions(old(self).trail@).len()
                    &&& decisions(final(self).trail@) == decisions(old(self).trail@).take(
                        jump.to_level as int,
                    )
                    &&& final(self).trail@.len() > 0
                    &&& final(self).entries().drop_last().is_prefix_of(old(self).entries())
                    &&& final(self).entries().drop_last() == progress::cut(
                        old(self).entries(),
                        jump.to_level as int,
                    )
                    &&& search::satisfied(
                        final(self).clauses()[jump.cause as int],
                        old(self).entries(),
                    )
                    &&& old(self).hinges_on_decision(i as int) ==> jump.cause == i
                    &&& final(self).store@.len() > old(self).store@.len() ==> {
                        &&& jump.cause == old(self).store@.len()
                        &&& final(self).store@.len() == old(self).store@.len() + 1
                    }
                    &&& final(self).trail@.last().cause == Some(jump.cause)
                    &&& machine::backjump(
                        old(self).clauses(),
                        old(self).entries(),
                        i as int,
                        root@,
                        *version,
                    ) == Some(
                        (final(self).clauses(), final(self).entries(), jump.cause as int),
                    )
                },
                Err(tree) => {
                    &&& tree.is_sound()
                    &&& final(self).trail@ == old(self).trail@
                    &&& final(self).store == old(self).store
                    &&& machine::backjump(
                        old(self).clauses(),
                        old(self).entries(),
                        i as int,
                        root@,
                        *version,
                    ) is None
                    &&& forall|s: Map<P::V, VS::V>|
                        s.get(root@) == Some(*version) ==> #[trigger] tree.refutes(s)
                    &&& forall|fact: spec_fn(External<P, VS, M>) -> bool| #[trigger]
                        old(self).rests_on(fact) ==> tree.rests_on(fact)
                },
            },
    {
        let ghost atoms = self.atoms@;
        let ghost clauses = self.clauses();
        let ghost trail = self.entries();
        let mut terms = duplicate_terms(&self.store[i].terms);
        let mut tree = share(&self.store[i].tree);
        let mut changed = false;
        let mut n = self.trail.len();
        proof {
            assert(trail.take(n as int) =~= trail);
            assert(clauses[i as int] == term::parts(terms@));
            assert(self.store@[i as int].justified());
            assert(clauses.is_prefix_of(clauses));
        }
        loop
            invariant
                *self == *old(self),
                self.ok(),
                atoms == self.atoms@,
                clauses == self.clauses(),
                trail == self.entries(),
                i < self.store@.len(),
                n <= self.trail@.len(),
                search::clause_ok(atoms, term::parts(terms@)),
                search::satisfied(term::parts(terms@), trail.take(n as int)),
                tree.is_sound(),
                forall|s: Map<P::V, VS::V>| #[trigger]
                    search::violates(term::parts(terms@), s) ==> tree.refutes(s),
                forall|fact: spec_fn(External<P, VS, M>) -> bool| #[trigger]
                    self.rests_on(fact) ==> tree.rests_on(fact),
                !changed ==> term::parts(terms@) == clauses[i as int],
                !changed ==> n == trail.len(),
                machine::resolved_from(
                    clauses,
                    trail,
                    i as int,
                    root@,
                    *version,
                    term::parts(terms@),
                    n as int,
                    changed,
                ) == machine::backjump(clauses, trail, i as int, root@, *version),
                changed ==> !self.hinges_on_decision(i as int),
                forall|k: P::V| #[trigger]
                    search::mentions(term::parts(terms@), k) ==> tree.involves(k),
                forall|k: P::V| #[trigger]
                    search::mentions(term::parts(terms@), k) <==> tree.names(k),
            decreases n,
        {
            if is_terminal(&terms, root, version) {
                proof {
                    assert(clauses.is_prefix_of(clauses));
                    assert forall|s: Map<P::V, VS::V>| s.get(root@) == Some(
                        *version,
                    ) implies #[trigger] tree.refutes(s) by {
                        assert(search::violates(term::parts(terms@), s));
                    }
                }
                return Err(tree);
            }
            let ghost start = n;
            while n > 0 && self.holds_at(&terms, n - 1)
                invariant
                    n <= start,
                    n <= self.trail@.len(),
                    trail == self.entries(),
                    search::satisfied(term::parts(terms@), trail.take(n as int)),
                    machine::earliest(term::parts(terms@), trail, n as int) == machine::earliest(
                        term::parts(terms@),
                        trail,
                        start as int,
                    ),
                decreases n,
            {
                n -= 1;
            }
            assert(machine::earliest(term::parts(terms@), trail, start as int) == n);
            proof {
                if n == 0 {
                    let part = term::parts(terms@)[0];
                    assert(search::open_states(trail.take(0), part.0).subset_of(part.1));
                    assert(part.1 =~= Set::full());
                }
            }
            proof {
                if !changed && self.hinges_on_decision(i as int) {
                    assert(trail.take(trail.len() - 1) =~= trail.drop_last());
                    if n < start {
                        assert forall|j: int|
                            0 <= j < clauses[i as int].len() implies search::open_states(
                            trail.drop_last(),
                            (#[trigger] clauses[i as int][j]).0,
                        ).subset_of(clauses[i as int][j].1) by {
                            assert(trail.drop_last().take(n as int) =~= trail.take(n as int));
                            search::lemma_trail_take(atoms, clauses, trail, trail.len() - 1);
                            search::lemma_open_states_shrink(
                                atoms,
                                clauses,
                                trail.drop_last(),
                                n as int,
                                clauses[i as int][j].0,
                            );
                        }
                    }
                    assert(n == trail.len());
                }
            }
            let ghost last = trail[n - 1];
            let package = self.trail[n - 1].package.duplicate();
            let from_level = self.level_at(self.trail.len());
            let satisfier_level = self.level_at(n);
            proof {
                assert(trail.take(self.trail@.len() as int) =~= trail);
                lemma_decisions(self.trail@);
                assert(trail.take(n as int).last() == last);
                search::lemma_trail_entry(atoms, clauses, trail, n - 1);
                assert(trail.take(n as int).drop_last() =~= trail.take(n - 1));
                search::lemma_satisfied_at(term::parts(terms@), trail.take(n as int), package@);
                assert(search::satisfied_except(
                    term::parts(terms@),
                    trail.take(n - 1),
                    package@,
                )) by {
                    assert forall|j: int|
                        0 <= j < term::parts(terms@).len() && (#[trigger] term::parts(
                            terms@,
                        )[j]).0 != package@ implies search::open_states(
                        trail.take(n - 1),
                        term::parts(terms@)[j].0,
                    ).subset_of(term::parts(terms@)[j].1) by {
                        assert(search::open_states(
                            trail.take(n as int),
                            term::parts(terms@)[j].0,
                        ) == search::open_states(trail.take(n - 1), term::parts(terms@)[j].0));
                    }
                }
            }
            let known = match self.trail[n - 1].cause {
                None => self.trail[n - 1].term.duplicate(),
                Some(c) => match find_term(&self.store[c].terms, &package) {
                    Some(j) => {
                        proof {
                            assert(search::clause_ok(atoms, clauses[c as int]));
                            assert(clauses[c as int] == term::parts(
                                self.store@[c as int].terms@,
                            ));
                            assert(clauses[c as int][j as int].0 == package@);
                            search::lemma_at(clauses[c as int], j as int);
                        }
                        self.store[c].terms[j].1.negate()
                    },
                    None => Term::any(),
                },
            };
            assert(known@ == machine::known_by(clauses, last));
            let mut m = n - 1;
            while m > 0 && self.holds_at_given(&terms, m - 1, &package, &known)
                invariant
                    m < n <= self.trail@.len(),
                    trail == self.entries(),
                    search::satisfied_except(
                        term::parts(terms@),
                        trail.take(m as int),
                        package@,
                    ),
                    machine::earliest_within(
                        term::parts(terms@),
                        trail,
                        m as int,
                        package@,
                        known@,
                    ) == machine::earliest_within(
                        term::parts(terms@),
                        trail,
                        n - 1,
                        package@,
                        known@,
                    ),
                decreases m,
            {
                m -= 1;
            }
            assert(machine::earliest_within(
                term::parts(terms@),
                trail,
                n - 1,
                package@,
                known@,
            ) == m);
            let previous_level = self.level_at(m);
            if previous_level < satisfier_level {
                let to_level = if previous_level == 0 && satisfier_level > 1 {
                    1
                } else {
                    previous_level
                };
                proof {
                    progress::lemma_backjump(
                        atoms,
                        clauses,
                        trail,
                        term::parts(terms@),
                        n as int,
                        m as int,
                        to_level as int,
                    );
                    progress::lemma_cut(atoms, clauses, trail, to_level as int);
                }
                let ghost clause = term::parts(terms@);
                let ghost kept = progress::cut(trail, to_level as int);
                assert(search::satisfied(clause, trail)) by {
                    assert forall|j: int| 0 <= j < clause.len() implies search::open_states(
                        trail,
                        (#[trigger] clause[j]).0,
                    ).subset_of(clause[j].1) by {
                        search::lemma_open_states_shrink(
                            atoms,
                            clauses,
                            trail,
                            n as int,
                            clause[j].0,
                        );
                    }
                }
                let cause = if changed {
                    self.store.len()
                } else {
                    i
                };
                if changed {
                    self.learn(Incompatibility { terms, tree });
                }
                proof {
                    assert(self.clauses()[cause as int] == clause);
                    assert(clauses.is_prefix_of(self.clauses()));
                }
                let ghost learned = *self;
                self.backtrack(to_level);
                assert(self.entries() == kept);
                assert(self.clauses() == learned.clauses());
                proof {
                    assert(search::clause_ok(self.atoms@, self.clauses()[cause as int]));
                }
                match find_term(&self.store[cause].terms, &package) {
                    Some(j) => {
                        proof {
                            assert(self.clauses()[cause as int] == term::parts(
                                self.store@[cause as int].terms@,
                            ));
                            assert(clause[j as int].0 == package@);
                            search::lemma_at(clause, j as int);
                        }
                        self.derive(cause, j);
                        proof {
                            let e = self.entries().last();
                            assert(self.entries().drop_last() =~= kept);
                            assert(self.clauses() =~= learned.clauses());
                            assert(e == machine::derived(
                                learned.clauses(),
                                kept,
                                cause as int,
                                package@,
                            ));
                            assert(self.entries() =~= kept.push(e));
                            assert(kept =~= trail.subrange(0, kept.len() as int));
                            if search::grounded(trail) {
                                search::lemma_grounded_take(trail, kept.len() as int);
                                search::lemma_grounded_push(kept, e);
                            }
                            progress::lemma_derivation_progress(
                                atoms,
                                learned.clauses(),
                                trail,
                                to_level as int,
                                e,
                            );
                            assert forall|fact: spec_fn(External<P, VS, M>) -> bool| #[trigger]
                                old(self).rests_on(fact) implies self.rests_on(fact) by {
                                assert forall|x: int| 0 <= x < self.store@.len() implies (
                                #[trigger] self.store@[x]).tree.rests_on(fact) by {
                                    if x < clauses.len() {
                                        assert(self.store@[x] == old(self).store@[x]);
                                    }
                                }
                            }
                        }
                        return Ok(Backjump { cause, from_level, to_level });
                    },
                    None => {
                        proof {
                            assert(search::mentions(clause, package@));
                            assert(false);
                        }
                    },
                }
                return Ok(Backjump { cause, from_level, to_level });
            }
            match self.trail[n - 1].cause {
                Some(c) => {
                    let ghost earlier = term::parts(terms@);
                    let ghost earlier_tree = tree;
                    assert(search::clause_ok(atoms, clauses[c as int]));
                    assert(clauses[c as int] == term::parts(self.store@[c as int].terms@));
                    let next = resolvent(
                        &terms,
                        &self.store[c].terms,
                        &package,
                        Ghost(self.atoms@),
                    );
                    proof {
                        search::lemma_resolvent_satisfied(
                            atoms,
                            clauses,
                            trail,
                            earlier,
                            term::parts(next@),
                            n as int,
                        );
                    }
                    let copy = duplicate_terms(&next);
                    tree =
                    Arc::new(
                        DerivationTree::Derived(
                            Derived { terms: copy, cause1: tree, cause2: share(&self.store[c].tree) },
                        ),
                    );
                    terms = next;
                    changed = true;
                    n -= 1;
                    proof {
                        let other = self.store@[c as int].tree;
                        assert(self.store@[c as int].justified());
                        let all = term::parts(terms@);
                        lemma_names(all);
                        assert(tree.conclusion() == all);
                        assert forall|k: P::V| #[trigger]
                            search::mentions(all, k) implies tree.involves(k) by {
                            let j = choose|j: int|
                                0 <= j < all.len() && (#[trigger] all[j]).0 == k;
                            search::lemma_at(all, j);
                            assert(all[j].1 != Set::<Option<VS::V>>::full());
                            if !search::mentions(earlier, k) && !search::mentions(
                                self.store@[c as int].clause(),
                                k,
                            ) {
                                assert(search::at(all, k) =~= Set::full());
                            }
                        }
                        assert forall|s: Map<P::V, VS::V>| #[trigger]
                            search::violates(term::parts(terms@), s) implies earlier_tree.refutes(s)
                            || other.refutes(s) by {
                            search::lemma_resolvent_sound(
                                earlier,
                                clauses[c as int],
                                term::parts(terms@),
                                package@,
                                s,
                            );
                            if search::violates(earlier, s) {
                                assert(earlier_tree.refutes(s));
                            } else {
                                assert(search::violates(self.store@[c as int].clause(), s));
                                assert(other.refutes(s));
                            }
                        }
                    }
                },
                None => {
                    proof {
                        assert(last.level == search::level(trail.take(n - 1)) + 1);
                        search::lemma_trail_take(atoms, clauses, trail, n - 1);
                        if m > 0 {
                            assert(trail.take(m as int).last() == trail.take(n - 1)[m - 1]);
                            progress::lemma_levels(atoms, clauses, trail.take(n - 1), m - 1);
                        } else {
                            progress::lemma_cut(atoms, clauses, trail.take(n - 1), 0);
                        }
                        assert(false);
                    }
                    n -= 1;
                },
            }
        }
    }
}

/// What was left open for the package of a step before it, if any step was about it.
pub open spec fn left_before<K, V>(trail: Seq<Entry<K, V>>, t: int) -> Option<Set<Option<V>>> {
    if search::assigned(trail.take(t), trail[t].key) {
        Some(search::open_states(trail.take(t), trail[t].key))
    } else {
        None
    }
}

/// The observer was told of the step.
pub open spec fn step_told<K, V>(
    trail: Seq<Entry<K, V>>,
    t: int,
    before: Seq<Observed<K, V>>,
    after: Seq<Observed<K, V>>,
) -> bool {
    exists|i: int|
        before.len() <= i < after.len() && (#[trigger] after[i]) is Derivation
            && after[i]->Derivation_0 == trail[t].key && after[i]->Derivation_1 == left_before(
            trail,
            t,
        ) && after[i]->Derivation_2 == trail[t].set
}

/// The observer was told of every derivation on the trail that was not there before.
pub open spec fn trail_told<K, V>(
    earlier: Seq<Entry<K, V>>,
    trail: Seq<Entry<K, V>>,
    before: Seq<Observed<K, V>>,
    after: Seq<Observed<K, V>>,
) -> bool {
    forall|t: int|
        0 <= t < trail.len() && (#[trigger] trail[t]).cause is Some ==> {
            ||| step_told(trail, t, before, after)
            ||| t < earlier.len() && earlier.take(t + 1) == trail.take(t + 1)
        }
}

/// Steps that are left are told of as before.
pub proof fn lemma_trail_told<K, V>(
    earlier: Seq<Entry<K, V>>,
    middle: Seq<Entry<K, V>>,
    trail: Seq<Entry<K, V>>,
    a: Seq<Observed<K, V>>,
    b: Seq<Observed<K, V>>,
    c: Seq<Observed<K, V>>,
)
    requires
        trail_told(earlier, middle, a, b),
        trail_told(middle, trail, b, c),
        a.len() <= b.len(),
        b.is_prefix_of(c),
    ensures
        trail_told(earlier, trail, a, c),
{
    assert forall|t: int| 0 <= t < trail.len() && (#[trigger] trail[t]).cause is Some implies {
        ||| step_told(trail, t, a, c)
        ||| t < earlier.len() && earlier.take(t + 1) == trail.take(t + 1)
    } by {
        if step_told(trail, t, b, c) {
            let i = choose|i: int|
                b.len() <= i < c.len() && (#[trigger] c[i]) is Derivation && c[i]->Derivation_0
                    == trail[t].key && c[i]->Derivation_1 == left_before(trail, t)
                    && c[i]->Derivation_2 == trail[t].set;
            assert(c[i] is Derivation);
        } else {
            assert(middle.take(t + 1)[t] == trail.take(t + 1)[t]);
            assert(middle[t] == trail[t]);
            assert(middle.take(t) =~= middle.take(t + 1).take(t));
            assert(trail.take(t) =~= trail.take(t + 1).take(t));
            assert(left_before(middle, t) == left_before(trail, t));
            if step_told(middle, t, a, b) {
                let i = choose|i: int|
                    a.len() <= i < b.len() && (#[trigger] b[i]) is Derivation && b[i]->Derivation_0
                        == middle[t].key && b[i]->Derivation_1 == left_before(middle, t)
                        && b[i]->Derivation_2 == middle[t].set;
                assert(b[i] == c.subrange(0, b.len() as int)[i]);
                assert(c[i] == b[i]);
            }
        }
    }
}

/// What was told stays told.
proof fn lemma_step_told_later<K, V>(
    trail: Seq<Entry<K, V>>,
    before: Seq<Observed<K, V>>,
    told: Seq<Observed<K, V>>,
    after: Seq<Observed<K, V>>,
)
    requires
        step_told(trail, trail.len() - 1, told, after),
        before.len() <= told.len(),
    ensures
        step_told(trail, trail.len() - 1, before, after),
{
    let t = trail.len() - 1;
    let i = choose|i: int|
        told.len() <= i < after.len() && (#[trigger] after[i]) is Derivation
            && after[i]->Derivation_0 == trail[t].key && after[i]->Derivation_1 == left_before(
            trail,
            t,
        ) && after[i]->Derivation_2 == trail[t].set;
    assert(after[i] is Derivation);
}

/// One event more leaves the steps told.
pub proof fn lemma_trail_still_told<K, V>(
    earlier: Seq<Entry<K, V>>,
    trail: Seq<Entry<K, V>>,
    before: Seq<Observed<K, V>>,
    after: Seq<Observed<K, V>>,
    o: Observed<K, V>,
)
    requires
        before.len() <= after.len(),
    ensures
        trail_told(earlier, trail, before, after) ==> trail_told(
            earlier,
            trail,
            before,
            after.push(o),
        ),
{
    let longer = after.push(o);
    if trail_told(earlier, trail, before, after) {
        assert forall|t: int| 0 <= t < trail.len() && (#[trigger] trail[t]).cause is Some implies {
            ||| step_told(trail, t, before, longer)
            ||| t < earlier.len() && earlier.take(t + 1) == trail.take(t + 1)
        } by {
            if step_told(trail, t, before, after) {
                let i = choose|i: int|
                    before.len() <= i < after.len() && (#[trigger] after[i]) is Derivation
                        && after[i]->Derivation_0 == trail[t].key && after[i]->Derivation_1
                        == left_before(trail, t) && after[i]->Derivation_2 == trail[t].set;
                assert(longer[i] == after[i]);
            }
        }
    }
}

/// A prefix of the trail, and one step more that is told of.
pub proof fn lemma_trail_told_push<K, V>(
    trail: Seq<Entry<K, V>>,
    longer: Seq<Entry<K, V>>,
    before: Seq<Observed<K, V>>,
    after: Seq<Observed<K, V>>,
)
    requires
        longer.len() > 0,
        longer.drop_last().is_prefix_of(trail),
        longer.last().cause is Some ==> step_told(longer, longer.len() - 1, before, after),
    ensures
        trail_told(trail, longer, before, after),
{
    let shorter = longer.drop_last();
    assert forall|t: int| 0 <= t < longer.len() && (#[trigger] longer[t]).cause is Some implies {
        ||| step_told(longer, t, before, after)
        ||| t < trail.len() && trail.take(t + 1) == longer.take(t + 1)
    } by {
        if t < shorter.len() {
            assert(trail.take(t + 1) =~= longer.take(t + 1)) by {
                assert forall|x: int| 0 <= x < t + 1 implies trail[x] == longer[x] by {
                    assert(shorter[x] == trail.subrange(0, shorter.len() as int)[x]);
                }
            }
        }
    }
}

/// A state that is not left open was ruled out by some step, until which it was left open.
pub proof fn lemma_ruled_out<K, V>(trail: Seq<Entry<K, V>>, k: K, x: Option<V>) -> (t: int)
    requires
        !search::open_states(trail, k).contains(x),
    ensures
        0 <= t < trail.len(),
        trail[t].key == k,
        !trail[t].set.contains(x),
        search::open_states(trail.take(t), k).contains(x),
    decreases trail.len(),
{
    let n = trail.len() - 1;
    let shorter = trail.drop_last();
    assert(shorter =~= trail.take(n));
    if search::open_states(shorter, k).contains(x) {
        assert(trail.last().key == k);
        n
    } else {
        let t = lemma_ruled_out(shorter, k, x);
        assert(shorter.take(t) =~= trail.take(t));
        t
    }
}

/// The conflicts met: the packages affected, and the root causes.
pub open spec fn causes_met<P: Package>(causes: Seq<(P, usize)>) -> Seq<(P::V, int)> {
    Seq::new(causes.len(), |j: int| (causes[j].0@, causes[j].1 as int))
}

/// Propagation ends with the clauses and the trail, and with the conflicts met, or without a
/// solution.
#[verifier::opaque]
pub open spec fn ends_scan<K, V>(
    root: K,
    version: V,
    begin: Scan<K, V>,
    clauses: Seq<Clause<K, V>>,
    trail: Seq<Entry<K, V>>,
    causes: Option<Seq<(K, int)>>,
) -> bool {
    exists|end: Scan<K, V>|
        {
            &&& #[trigger] machine::scans_to(root, version, begin, end)
            &&& end.clauses == clauses
            &&& end.trail == trail
            &&& end.failed == (causes is None)
            &&& causes matches Some(met) ==> end.causes == met
        }
}

/// The clause mentions a package that waits.
spec fn waits<K, V>(waiting: Seq<K>, clause: Clause<K, V>) -> bool {
    exists|b: int| 0 <= b < waiting.len() && search::mentions(clause, #[trigger] waiting[b])
}

/// The trail is made of what is left of the earlier one, up to `base`, and of derivations. Either all
/// of it is left, or what remains of it below a level.
pub open spec fn stems_from<K, V>(
    earlier: Seq<Entry<K, V>>,
    trail: Seq<Entry<K, V>>,
    base: int,
) -> bool {
    &&& 0 <= base <= earlier.len()
    &&& base <= trail.len()
    &&& trail.take(base) == earlier.take(base)
    &&& forall|t: int| base <= t < trail.len() ==> (#[trigger] trail[t]).cause is Some
    &&& base < earlier.len() ==> is_cut(earlier, base)
}

/// What lies below a level of the trail ends at the place.
pub open spec fn is_cut<K, V>(trail: Seq<Entry<K, V>>, base: int) -> bool {
    exists|l: int|
        0 <= l < search::level(trail) && #[trigger] progress::cut(trail, l) == trail.take(base)
}

/// One derivation more.
proof fn lemma_stems_push<K, V>(
    earlier: Seq<Entry<K, V>>,
    trail: Seq<Entry<K, V>>,
    base: int,
    e: Entry<K, V>,
)
    requires
        stems_from(earlier, trail, base),
        e.cause is Some,
    ensures
        stems_from(earlier, trail.push(e), base),
{
    let longer = trail.push(e);
    assert(longer.take(base) =~= trail.take(base));
    assert forall|t: int| base <= t < longer.len() implies (#[trigger] longer[t]).cause is Some by {
        if t < trail.len() {
            assert(longer[t] == trail[t]);
        }
    }
}

/// Going back below a level, and one derivation.
proof fn lemma_stems_back<K, V>(
    atoms: Clause<K, V>,
    store: Seq<Clause<K, V>>,
    earlier: Seq<Entry<K, V>>,
    trail: Seq<Entry<K, V>>,
    base: int,
    l: int,
    e: Entry<K, V>,
)
    requires
        search::trail_ok(atoms, store, trail),
        stems_from(earlier, trail, base),
        0 <= l < search::level(trail),
        e.cause is Some,
        forall|t: int| 0 <= t < earlier.len() ==> (#[trigger] earlier[t]).level <= search::level(
            earlier,
        ),
    ensures
        stems_from(
            earlier,
            progress::cut(trail, l).push(e),
            progress::cut(trail, l).len() as int,
        ),
        progress::cut(trail, l).len() < earlier.len(),
{
    let kept = progress::cut(trail, l);
    let n = kept.len() as int;
    progress::lemma_cut(atoms, store, trail, l);
    let left = earlier.take(base);
    search::lemma_trail_take(atoms, store, trail, base);
    progress::lemma_cut(atoms, store, left, l);
    // The derivations lie on the level where the part from before ends.
    lemma_derived_level(atoms, store, trail, base);
    assert(progress::cut(left, l) == kept) by {
        lemma_cut_derived(atoms, store, trail, base, l);
    }
    if base < earlier.len() {
        let m = choose|m: int|
            0 <= m < search::level(earlier) && #[trigger] progress::cut(earlier, m)
                == earlier.take(base);
        assert(search::level(left) == search::level(trail));
        assert(l <= m) by {
            lemma_cut_level_bound(earlier, m);
        }
        progress::lemma_cut_cut(earlier, m, l);
        assert(progress::cut(earlier, l) == kept);
        assert(l < search::level(earlier));
    } else {
        assert(left =~= earlier);
        assert(progress::cut(earlier, l) == kept);
    }
    assert(n <= base);
    assert(kept =~= earlier.take(n)) by {
        assert forall|t: int| 0 <= t < n implies kept[t] == earlier[t] by {
            assert(left.take(n)[t] == left[t]);
        }
    }
    let longer = kept.push(e);
    assert(longer.take(n) =~= kept);
    assert(n < earlier.len()) by {
        if n >= earlier.len() {
            assert(kept =~= earlier);
            assert(search::level(kept) == l);
        }
    }
}

pub proof fn lemma_cut_level_bound<K, V>(trail: Seq<Entry<K, V>>, m: int)
    requires
        0 <= m,
    ensures
        search::level(progress::cut(trail, m)) <= m,
    decreases trail.len(),
{
    if trail.len() > 0 && trail.last().level > m {
        lemma_cut_level_bound(trail.drop_last(), m);
    }
}

/// Derivations after a part of the trail lie on the level of that part.
pub proof fn lemma_derived_level<K, V>(
    atoms: Clause<K, V>,
    store: Seq<Clause<K, V>>,
    trail: Seq<Entry<K, V>>,
    base: int,
)
    requires
        search::trail_ok(atoms, store, trail),
        0 <= base <= trail.len(),
        forall|t: int| base <= t < trail.len() ==> (#[trigger] trail[t]).cause is Some,
    ensures
        search::level(trail) == search::level(trail.take(base)),
        forall|t: int|
            base <= t < trail.len() ==> (#[trigger] trail[t]).level == search::level(
                trail.take(base),
            ),
    decreases trail.len(),
{
    if trail.len() > base {
        let n = trail.len() - 1;
        let shorter = trail.take(n);
        search::lemma_trail_take(atoms, store, trail, n);
        assert forall|t: int| base <= t < shorter.len() implies (#[trigger] shorter[t]).cause is Some by {
            assert(shorter[t] == trail[t]);
        }
        lemma_derived_level(atoms, store, shorter, base);
        assert(shorter.take(base) =~= trail.take(base));
        search::lemma_trail_entry(atoms, store, trail, n);
        assert(trail[n].cause is Some);
        assert forall|t: int| base <= t < trail.len() implies (#[trigger] trail[t]).level
            == search::level(trail.take(base)) by {
            if t < n {
                assert(shorter[t] == trail[t]);
            }
        }
    } else {
        assert(trail.take(base) =~= trail);
    }
}

/// Below the level on which they lie, derivations do not matter.
pub proof fn lemma_cut_derived<K, V>(
    atoms: Clause<K, V>,
    store: Seq<Clause<K, V>>,
    trail: Seq<Entry<K, V>>,
    base: int,
    l: int,
)
    requires
        search::trail_ok(atoms, store, trail),
        0 <= base <= trail.len(),
        forall|t: int| base <= t < trail.len() ==> (#[trigger] trail[t]).cause is Some,
        l < search::level(trail),
    ensures
        progress::cut(trail, l) == progress::cut(trail.take(base), l),
    decreases trail.len(),
{
    if trail.len() > base {
        let n = trail.len() - 1;
        let shorter = trail.take(n);
        lemma_derived_level(atoms, store, trail, base);
        search::lemma_trail_take(atoms, store, trail, n);
        assert forall|t: int| base <= t < shorter.len() implies (#[trigger] shorter[t]).cause is Some by {
            assert(shorter[t] == trail[t]);
        }
        lemma_derived_level(atoms, store, shorter, base);
        assert(shorter.take(base) =~= trail.take(base));
        lemma_cut_derived(atoms, store, shorter, base, l);
        assert(trail.drop_last() =~= shorter);
        assert(trail[n].level == search::level(trail.take(base)));
    } else {
        assert(trail.take(base) =~= trail);
    }
}

/// Whoever is told of everything can retrace the steps.
pub open spec fn are_retold<P: Package, VS: VersionSet, M, O: SolverObserver<P, VS, M>>(
    earlier: Seq<Entry<P::V, VS::V>>,
    trail: Seq<Entry<P::V, VS::V>>,
    before: Seq<Observed<P::V, VS::V>>,
    after: Seq<Observed<P::V, VS::V>>,
) -> bool {
    observer::always_asks::<P, VS, M, O>() ==> {
        &&& observer::has_settled(before, after)
        &&& forall|plain: bool| #[trigger]
            trace::leads(plain, trace::steps_of(earlier), trace::steps_of(trail), before, after)
    }
}

proof fn lemma_nothing_retold<P: Package, VS: VersionSet, M, O: SolverObserver<P, VS, M>>(
    trail: Seq<Entry<P::V, VS::V>>,
    log: Seq<Observed<P::V, VS::V>>,
)
    ensures
        are_retold::<P, VS, M, O>(trail, trail, log, log),
{
    assert forall|plain: bool| #[trigger]
        trace::leads(plain, trace::steps_of(trail), trace::steps_of(trail), log, log) by {
        trace::lemma_leads_nowhere(plain, trace::steps_of(trail), log);
    }
}

/// Whoever is told of everything was told of what was learned, where the solver went back for it;
/// and every cause is one that was there before, or for which the solver went back before.
#[verifier::opaque]
pub open spec fn draws_on<P: Package, VS: VersionSet, M, O: SolverObserver<P, VS, M>>(
    first: State<P, VS, M>,
    later: State<P, VS, M>,
    before: Seq<Observed<P::V, VS::V>>,
    after: Seq<Observed<P::V, VS::V>>,
) -> bool {
    observer::always_asks::<P, VS, M, O>() ==> {
        &&& forall|c: int|
            first.store@.len() <= c < later.store@.len() ==> observer::is_told_back(
                before.len() as int,
                after.len() as int,
                after,
                #[trigger] later.cause_told(c),
            )
        &&& forall|i: int|
            before.len() <= i < after.len() && ((#[trigger] after[i]) is Derivation
                || after[i] is Conflict) ==> first.holds_cause(observer::cause_of(after[i]))
                || observer::is_told_back(
                before.len() as int,
                i,
                after,
                observer::cause_of(after[i]),
            )
    }
}

proof fn lemma_draws_on_nothing<P: Package, VS: VersionSet, M, O: SolverObserver<P, VS, M>>(
    state: State<P, VS, M>,
    log: Seq<Observed<P::V, VS::V>>,
)
    ensures
        draws_on::<P, VS, M, O>(state, state, log, log),
{
    reveal(draws_on);
}

/// A derivation or a conflict with the tree of an incompatibility.
proof fn lemma_draws_on_push<P: Package, VS: VersionSet, M, O: SolverObserver<P, VS, M>>(
    first: State<P, VS, M>,
    earlier: State<P, VS, M>,
    later: State<P, VS, M>,
    before: Seq<Observed<P::V, VS::V>>,
    after: Seq<Observed<P::V, VS::V>>,
    o: Observed<P::V, VS::V>,
    c: int,
)
    requires
        draws_on::<P, VS, M, O>(first, earlier, before, after),
        later.store == earlier.store,
        first.store@.is_prefix_of(later.store@),
        before.len() <= after.len(),
        o is Derivation || o is Conflict,
        0 <= c < later.store@.len(),
        observer::cause_of(o) == later.cause_told(c),
    ensures
        draws_on::<P, VS, M, O>(first, later, before, after.push(o)),
{
    reveal(draws_on);
    let longer = after.push(o);
    let start = before.len() as int;
    assert(after =~= longer.subrange(0, after.len() as int));
    if observer::always_asks::<P, VS, M, O>() {
        assert forall|x: int| first.store@.len() <= x < later.store@.len() implies
            observer::is_told_back(
            start,
            longer.len() as int,
            longer,
            #[trigger] later.cause_told(x),
        ) by {
            assert(later.cause_told(x) == earlier.cause_told(x));
            observer::lemma_told_back(
                start,
                after.len() as int,
                after,
                start,
                longer.len() as int,
                longer,
                later.cause_told(x),
            );
        }
        assert forall|i: int|
            before.len() <= i < longer.len() && ((#[trigger] longer[i]) is Derivation
                || longer[i] is Conflict) implies first.holds_cause(observer::cause_of(longer[i]))
            || observer::is_told_back(start, i, longer, observer::cause_of(longer[i])) by {
            let cause = observer::cause_of(longer[i]);
            if i < after.len() {
                assert(longer[i] == after[i]);
                if !first.holds_cause(cause) {
                    observer::lemma_told_back(start, i, after, start, i, longer, cause);
                }
            } else if c < first.store@.len() {
                assert(first.store@[c] == later.store@.subrange(
                    0,
                    first.store@.len() as int,
                )[c]);
                assert(first.cause_told(c) == cause);
            } else {
                assert(earlier.cause_told(c) == cause);
                observer::lemma_told_back(start, i, after, start, i, longer, cause);
            }
        }
    }
}

/// Going back for an incompatibility, which is the only one that may be new.
proof fn lemma_draws_on_back<P: Package, VS: VersionSet, M, O: SolverObserver<P, VS, M>>(
    first: State<P, VS, M>,
    earlier: State<P, VS, M>,
    later: State<P, VS, M>,
    before: Seq<Observed<P::V, VS::V>>,
    after: Seq<Observed<P::V, VS::V>>,
    o: Observed<P::V, VS::V>,
    c: int,
)
    requires
        draws_on::<P, VS, M, O>(first, earlier, before, after),
        earlier.store@.is_prefix_of(later.store@),
        later.store@.len() > earlier.store@.len() ==> c == earlier.store@.len()
            && later.store@.len() == earlier.store@.len() + 1,
        before.len() <= after.len(),
        o is Backtrack,
        observer::cause_of(o) == later.cause_told(c),
    ensures
        draws_on::<P, VS, M, O>(first, later, before, after.push(o)),
{
    reveal(draws_on);
    let longer = after.push(o);
    let start = before.len() as int;
    assert(after =~= longer.subrange(0, after.len() as int));
    if observer::always_asks::<P, VS, M, O>() {
        assert forall|x: int| first.store@.len() <= x < later.store@.len() implies
            observer::is_told_back(
            start,
            longer.len() as int,
            longer,
            #[trigger] later.cause_told(x),
        ) by {
            if x < earlier.store@.len() {
                assert(earlier.store@[x] == later.store@.subrange(
                    0,
                    earlier.store@.len() as int,
                )[x]);
                assert(later.cause_told(x) == earlier.cause_told(x));
                observer::lemma_told_back(
                    start,
                    after.len() as int,
                    after,
                    start,
                    longer.len() as int,
                    longer,
                    later.cause_told(x),
                );
            } else {
                assert(longer[after.len() as int] == o);
            }
        }
        assert forall|i: int|
            before.len() <= i < longer.len() && ((#[trigger] longer[i]) is Derivation
                || longer[i] is Conflict) implies first.holds_cause(observer::cause_of(longer[i]))
            || observer::is_told_back(start, i, longer, observer::cause_of(longer[i])) by {
            let cause = observer::cause_of(longer[i]);
            assert(longer[i] == after[i]);
            if !first.holds_cause(cause) {
                observer::lemma_told_back(start, i, after, start, i, longer, cause);
            }
        }
    }
}

proof fn lemma_draws_on_same<P: Package, VS: VersionSet, M, O: SolverObserver<P, VS, M>>(
    first: State<P, VS, M>,
    earlier: State<P, VS, M>,
    later: State<P, VS, M>,
    before: Seq<Observed<P::V, VS::V>>,
    after: Seq<Observed<P::V, VS::V>>,
)
    requires
        draws_on::<P, VS, M, O>(first, earlier, before, after),
        later.store == earlier.store,
    ensures
        draws_on::<P, VS, M, O>(first, later, before, after),
{
    reveal(draws_on);
    assert forall|c: int| #[trigger] later.cause_told(c) == earlier.cause_told(c) by {}
}

/// Nothing is told to whoever does not ask, and nothing is said of that.
proof fn lemma_draws_on_unasked<P: Package, VS: VersionSet, M, O: SolverObserver<P, VS, M>>(
    first: State<P, VS, M>,
    later: State<P, VS, M>,
    before: Seq<Observed<P::V, VS::V>>,
    after: Seq<Observed<P::V, VS::V>>,
)
    requires
        !observer::always_asks::<P, VS, M, O>(),
    ensures
        draws_on::<P, VS, M, O>(first, later, before, after),
{
    reveal(draws_on);
}

/// What is told of the conflicts: the package affected, and the tree of the incompatibility.
pub open spec fn conflicts_told<P: Package, VS: VersionSet, M>(
    state: State<P, VS, M>,
    causes: Seq<(P, usize)>,
) -> Seq<(P::V, Cause<P::V, VS::V>)> {
    Seq::new(causes.len(), |j: int| (causes[j].0@, state.cause_told(causes[j].1 as int)))
}

/// Whoever is told of everything is told of each of the conflicts.
#[verifier::opaque]
pub open spec fn are_told<P: Package, VS: VersionSet, M, O: SolverObserver<P, VS, M>>(
    state: State<P, VS, M>,
    causes: Seq<(P, usize)>,
    before: Seq<Observed<P::V, VS::V>>,
    after: Seq<Observed<P::V, VS::V>>,
) -> bool {
    observer::always_asks::<P, VS, M, O>() ==> {
        &&& observer::has_settled(before, after)
        &&& observer::setbacks(before.len() as int, after) == conflicts_told(state, causes)
    }
}

proof fn lemma_nothing_met<P: Package, VS: VersionSet, M, O: SolverObserver<P, VS, M>>(
    state: State<P, VS, M>,
    causes: Seq<(P, usize)>,
    log: Seq<Observed<P::V, VS::V>>,
)
    requires
        causes.len() == 0,
    ensures
        are_told::<P, VS, M, O>(state, causes, log, log),
{
    reveal(are_told);
    assert(conflicts_told(state, causes) =~= Seq::empty());
}

/// One event more, or none, that is not that the solver went back.
proof fn lemma_are_told<P: Package, VS: VersionSet, M, O: SolverObserver<P, VS, M>>(
    earlier: State<P, VS, M>,
    later: State<P, VS, M>,
    causes: Seq<(P, usize)>,
    before: Seq<Observed<P::V, VS::V>>,
    after: Seq<Observed<P::V, VS::V>>,
    o: Observed<P::V, VS::V>,
)
    requires
        are_told::<P, VS, M, O>(earlier, causes, before, after),
        later.store == earlier.store,
        before.len() <= after.len(),
        !(o is Backtrack),
    ensures
        are_told::<P, VS, M, O>(later, causes, before, after.push(o)),
        are_told::<P, VS, M, O>(later, causes, before, after),
{
    reveal(are_told);
    if observer::always_asks::<P, VS, M, O>() {
        observer::lemma_setbacks_push(before, after, o);
        assert forall|j: int| 0 <= j < causes.len() implies conflicts_told(earlier, causes)[j]
            == conflicts_told(later, causes)[j] by {
            let c = causes[j].1 as int;
            assert(earlier.cause_told(c) == later.cause_told(c));
        }
        assert(conflicts_told(earlier, causes) =~= conflicts_told(later, causes));
    }
}

/// What was told of the conflicts stays what there is to tell.
proof fn lemma_conflicts_told<P: Package, VS: VersionSet, M>(
    earlier: State<P, VS, M>,
    later: State<P, VS, M>,
    causes: Seq<(P, usize)>,
)
    requires
        earlier.store@.is_prefix_of(later.store@),
        forall|j: int| 0 <= j < causes.len() ==> (#[trigger] causes[j]).1 < earlier.store@.len(),
    ensures
        conflicts_told(earlier, causes) == conflicts_told(later, causes),
{
    assert forall|j: int| 0 <= j < causes.len() implies conflicts_told(earlier, causes)[j]
        == conflicts_told(later, causes)[j] by {
        let c = causes[j].1 as int;
        assert(earlier.store@[c] == later.store@.subrange(0, earlier.store@.len() as int)[c]);
        assert(earlier.cause_told(c) == later.cause_told(c));
    }
    assert(conflicts_told(earlier, causes) =~= conflicts_told(later, causes));
}

proof fn lemma_one_more_told<P: Package, VS: VersionSet, M, O: SolverObserver<P, VS, M>>(
    earlier: State<P, VS, M>,
    later: State<P, VS, M>,
    causes: Seq<(P, usize)>,
    cause: (P, usize),
    before: Seq<Observed<P::V, VS::V>>,
    settled: Seq<Observed<P::V, VS::V>>,
    told: Seq<Observed<P::V, VS::V>>,
    after: Seq<Observed<P::V, VS::V>>,
)
    requires
        are_told::<P, VS, M, O>(earlier, causes, before, settled),
        earlier.store@.is_prefix_of(later.store@),
        forall|j: int| 0 <= j < causes.len() ==> (#[trigger] causes[j]).1 < earlier.store@.len(),
        before.len() <= settled.len(),
        observer::always_asks::<P, VS, M, O>() ==> {
            &&& told.len() == settled.len() + 1
            &&& told.drop_last() == settled
            &&& told.last() is Backtrack
            &&& observer::cause_of(told.last()) == later.cause_told(cause.1 as int)
            &&& after.len() == told.len() + 1
            &&& after.drop_last() == told
            &&& after.last() is Derivation
            &&& after.last()->Derivation_0 == cause.0@
        },
    ensures
        are_told::<P, VS, M, O>(later, causes.push(cause), before, after),
{
    reveal(are_told);
    if observer::always_asks::<P, VS, M, O>() {
        let more = causes.push(cause);
        lemma_conflicts_told(earlier, later, causes);
        assert(told =~= settled.push(told.last()));
        observer::lemma_setbacks_push(before, settled, told.last());
        assert(after[after.len() - 2] == told.last());
        assert(conflicts_told(later, more) =~= conflicts_told(later, causes).push(
            (cause.0@, later.cause_told(cause.1 as int)),
        ));
    }
}

/// What an observer was told is in step with the decisions: of those from before the first are left,
/// no event goes back to a level below them, and whoever is told of everything can tell which are
/// left.
pub open spec fn in_step<P: Package, VS: VersionSet, M, O: SolverObserver<P, VS, M>>(
    earlier: Seq<(P::V, VS::V)>,
    left: Seq<(P::V, VS::V)>,
    before: Seq<Observed<P::V, VS::V>>,
    after: Seq<Observed<P::V, VS::V>>,
) -> bool {
    &&& left.len() <= earlier.len()
    &&& left == earlier.take(left.len() as int)
    &&& observer::follows_path::<P, VS, M, O>(before, after)
    &&& observer::count_levels(
        earlier.len() as int,
        left.len() as int,
        before.len() as int,
        after,
        observer::always_asks::<P, VS, M, O>(),
    )
    &&& forall|i: int| before.len() <= i < after.len() ==> observer::holds_tree(#[trigger] after[i])
    &&& forall|i: int|
        before.len() <= i < after.len() && (#[trigger] after[i]) is Backtrack
            ==> after[i]->Backtrack_1 >= observer::level_told(left.len() as int)
    &&& observer::always_asks::<P, VS, M, O>() && observer::levels_fit(before.len() as int, after)
        ==> {
        &&& left == observer::replayed(earlier, before.len() as int, after)
        &&& observer::levels_are_told(earlier, before.len() as int, after)
    }
}

proof fn lemma_in_step<P: Package, VS: VersionSet, M, O: SolverObserver<P, VS, M>>(
    earlier: Seq<(P::V, VS::V)>,
    left: Seq<(P::V, VS::V)>,
    fewer: Seq<(P::V, VS::V)>,
    before: Seq<Observed<P::V, VS::V>>,
    after: Seq<Observed<P::V, VS::V>>,
    o: Observed<P::V, VS::V>,
)
    requires
        in_step::<P, VS, M, O>(earlier, left, before, after),
        observer::may_ask::<P, VS, M, O>(after),
        observer::holds_tree(o),
        observer::on_path(o),
        fewer.len() <= left.len(),
        fewer == left.take(fewer.len() as int),
        o is Backtrack ==> {
            &&& o->Backtrack_1 == observer::level_told(fewer.len() as int)
            &&& o->Backtrack_0 == observer::level_told(left.len() as int)
            &&& fewer.len() < left.len()
        },
        !(o is Backtrack) ==> fewer == left,
    ensures
        in_step::<P, VS, M, O>(earlier, fewer, before, after.push(o)),
{
    let longer = after.push(o);
    let start = before.len() as int;
    assert(longer.drop_last() =~= after);
    assert forall|i: int| before.len() <= i < after.len() implies #[trigger] longer[i]
        == after[i] by {}
    if after.len() > start {
        assert(observer::holds_tree(after[after.len() - 1]));
        assert(longer[after.len() - 1] == after[after.len() - 1]);
    }
    observer::lemma_records_push::<P, VS, M, O>(before, after, o);
    observer::lemma_levels_push(
        earlier.len() as int,
        left.len() as int,
        fewer.len() as int,
        start,
        after,
        o,
        observer::always_asks::<P, VS, M, O>(),
    );
    if observer::levels_fit(start, longer) {
        assert(observer::levels_fit(start, after)) by {
            assert forall|i: int|
                start <= i < after.len() && (#[trigger] after[i]) is Backtrack implies
                after[i]->Backtrack_0 < u32::MAX by {
                assert(longer[i] == after[i]);
            }
        }
        assert(longer[after.len() as int] == o);
        if observer::always_asks::<P, VS, M, O>() {
            assert(longer.take(after.len() as int) =~= after);
            assert forall|i: int| start <= i < longer.len() implies #[trigger] observer::is_level_told(
                earlier,
                start,
                longer,
                i,
            ) by {
                if i < after.len() {
                    assert(observer::is_level_told(earlier, start, after, i));
                    assert(longer.take(i) =~= after.take(i));
                    assert(longer.take(i + 1) =~= after.take(i + 1));
                }
            }
        }
    }
    assert(fewer =~= earlier.take(fewer.len() as int));
    if !(o is Backtrack) {
        assert(fewer == left);
    }
}

/// Whoever is not told of everything need not be told that decisions were discarded.
proof fn lemma_in_step_silently<P: Package, VS: VersionSet, M, O: SolverObserver<P, VS, M>>(
    earlier: Seq<(P::V, VS::V)>,
    left: Seq<(P::V, VS::V)>,
    fewer: Seq<(P::V, VS::V)>,
    before: Seq<Observed<P::V, VS::V>>,
    after: Seq<Observed<P::V, VS::V>>,
)
    requires
        in_step::<P, VS, M, O>(earlier, left, before, after),
        !observer::always_asks::<P, VS, M, O>(),
        fewer.len() <= left.len(),
        fewer == left.take(fewer.len() as int),
    ensures
        in_step::<P, VS, M, O>(earlier, fewer, before, after),
{
    observer::lemma_levels_fall(
        earlier.len() as int,
        left.len() as int,
        fewer.len() as int,
        before.len() as int,
        after,
    );
    assert(fewer =~= earlier.take(fewer.len() as int));
}

/// The level as a number in an event.
pub fn level_number(level: usize) -> (r: u32)
    ensures
        r == observer::level_told(level as int),
{
    if level <= u32::MAX as usize {
        level as u32
    } else {
        u32::MAX
    }
}

impl<P: Package, VS: VersionSet, M> State<P, VS, M> {
    /// What there is to tell of the derivation that was the last step: its package, what was left
    /// open for the package before if any step was about it, what is left open now, and what the
    /// incompatibility behind it rules out.
    pub open spec fn last_derivation(self) -> Observed<P::V, VS::V> {
        let last = self.entries().last();
        let earlier = self.entries().drop_last();
        Observed::Derivation(
            last.key,
            if search::assigned(earlier, last.key) {
                Some(search::open_states(earlier, last.key))
            } else {
                None
            },
            last.set,
            self.store@[last.cause->0].tree.told(),
        )
    }

    /// An event with the tree of an incompatibility is told of a sound tree.
    proof fn lemma_causes_told(
        self,
        first: Self,
        c: int,
        before: Seq<Observed<P::V, VS::V>>,
        after: Seq<Observed<P::V, VS::V>>,
        o: Observed<P::V, VS::V>,
    )
        requires
            self.ok(),
            self.extends(first),
            0 <= c < self.store@.len(),
            observer::holds_tree(o),
            observer::cause_of(o) == self.store@[c].tree.told(),
            forall|fact: spec_fn(External<P, VS, M>) -> bool| #[trigger]
                first.rests_on(fact) ==> observer::causes_rest_on(before, after, fact),
        ensures
            forall|fact: spec_fn(External<P, VS, M>) -> bool| #[trigger]
                first.rests_on(fact) ==> observer::causes_rest_on(before, after.push(o), fact),
    {
        assert forall|fact: spec_fn(External<P, VS, M>) -> bool| #[trigger]
            first.rests_on(fact) implies observer::causes_rest_on(before, after.push(o), fact) by {
            assert(self.rests_on(fact));
            assert(self.store@[c].justified());
            assert(self.store@[c].tree.rests_on(fact));
            assert(observer::is_told_of_tree(observer::cause_of(o), fact));
            observer::lemma_causes_push(before, after, o, fact);
        }
    }

    /// What is told of the last step tells of it.
    proof fn lemma_step_told(self, told: Seq<Observed<P::V, VS::V>>)
        requires
            self.trail@.len() > 0,
        ensures
            step_told(
                self.entries(),
                self.entries().len() - 1,
                told,
                told.push(self.last_derivation()),
            ),
    {
        let after = told.push(self.last_derivation());
        let n = self.entries().len() - 1;
        assert(self.entries().drop_last() =~= self.entries().take(n));
        assert(after[told.len() as int] == self.last_derivation());
    }

    /// What an observer is told of the tree of an incompatibility.
    pub open spec fn cause_told(self, c: int) -> Cause<P::V, VS::V> {
        self.store@[c].tree.told()
    }

    /// An incompatibility has a tree of which this is told.
    pub open spec fn holds_cause(self, cause: Cause<P::V, VS::V>) -> bool {
        exists|c: int| 0 <= c < self.store@.len() && #[trigger] self.cause_told(c) == cause
    }

    /// The last step is one that its incompatibility calls for.
    proof fn lemma_derivation_happens(self, plain: bool)
        requires
            self.ok(),
            self.trail@.len() > 0,
            self.trail@.last().cause is Some,
        ensures
            ({
                let steps = trace::steps_of(self.entries().drop_last());
                &&& trace::can_happen(plain, steps, self.last_derivation())
                &&& trace::next_steps(steps, self.last_derivation()) == trace::steps_of(
                    self.entries(),
                )
            }),
    {
        let n = self.entries().len() - 1;
        let trail = self.entries().drop_last();
        let e = self.entries().last();
        let steps = trace::steps_of(trail);
        let c = e.cause->0;
        let clause = self.clauses()[c];
        assert(trail =~= self.entries().take(n));
        search::lemma_trail_entry(self.atoms@, self.clauses(), self.entries(), n);
        trace::lemma_steps_of(trail, e.key);
        assert(search::clause_ok(self.atoms@, clause));
        assert(self.store@[c].justified());
        assert(clause == self.store@[c].clause());
        assert(search::mentions(clause, e.key)) by {
            if !search::mentions(clause, e.key) {
                assert(e.set =~= Set::empty());
            }
        }
        let cause = self.cause_told(c);
        assert(cause.packages.contains(e.key));
        let open = search::open_states(trail, e.key);
        let x = choose|x: Option<VS::V>|
            open.contains(x) && search::at(clause, e.key).contains(x);
        if forall|x: Option<VS::V>| !(open.contains(x) && search::at(clause, e.key).contains(x)) {
            assert(open.disjoint(search::at(clause, e.key)));
        }
        assert(open.contains(x) && !e.set.contains(x));
        if forall|y: Option<VS::V>| !e.set.contains(y) {
            assert(e.set =~= Set::empty());
        }
        assert forall|s: Map<P::V, VS::V>| #[trigger]
            trace::fits(steps, s) && !e.set.contains(s.get(e.key)) implies cause.refuted.contains(
            s,
        ) by {
            assert(trace::open_states(steps, e.key).contains(s.get(e.key)));
            trace::lemma_step_violates(clause, trail, e.key, s);
            assert(self.store@[c].tree.refutes(s));
        }
        assert(trace::next_steps(steps, self.last_derivation()) =~= trace::steps_of(
            self.entries(),
        ));
    }

    /// Whatever fits the steps is ruled out by a satisfied incompatibility.
    proof fn lemma_satisfied_refutes(self, c: int, trail: Seq<Entry<P::V, VS::V>>)
        requires
            self.ok(),
            0 <= c < self.store@.len(),
            search::satisfied(self.clauses()[c], trail),
        ensures
            forall|s: Map<P::V, VS::V>| #[trigger]
                trace::fits(trace::steps_of(trail), s) ==> self.store@[c].tree.told().refuted.contains(
                    s,
                ),
    {
        assert(self.store@[c].justified());
        assert forall|s: Map<P::V, VS::V>| #[trigger]
            trace::fits(trace::steps_of(trail), s) implies self.store@[c].tree.told().refuted.contains(
            s,
        ) by {
            trace::lemma_satisfied_violates(self.clauses()[c], trail, s);
            assert(search::violates(self.store@[c].clause(), s));
        }
    }

    proof fn lemma_retold_derivation<O: SolverObserver<P, VS, M>>(
        self,
        earlier: Seq<Entry<P::V, VS::V>>,
        before: Seq<Observed<P::V, VS::V>>,
        told: Seq<Observed<P::V, VS::V>>,
    )
        requires
            self.ok(),
            self.trail@.len() > 0,
            self.trail@.last().cause is Some,
            before.len() <= told.len(),
            are_retold::<P, VS, M, O>(earlier, self.entries().drop_last(), before, told),
        ensures
            are_retold::<P, VS, M, O>(
                earlier,
                self.entries(),
                before,
                told.push(self.last_derivation()),
            ),
    {
        if observer::always_asks::<P, VS, M, O>() {
            let from = trace::steps_of(earlier);
            let steps = trace::steps_of(self.entries().drop_last());
            let next = trace::steps_of(self.entries());
            let o = self.last_derivation();
            assert forall|plain: bool| #[trigger]
                trace::leads(plain, from, next, before, told.push(o)) by {
                self.lemma_derivation_happens(plain);
                assert(trace::leads(plain, from, steps, before, told));
                trace::lemma_leads_push(plain, from, steps, before, told, o, next);
            }
        }
    }

    proof fn lemma_retold_conflict<O: SolverObserver<P, VS, M>>(
        self,
        c: int,
        earlier: Seq<Entry<P::V, VS::V>>,
        before: Seq<Observed<P::V, VS::V>>,
        told: Seq<Observed<P::V, VS::V>>,
    )
        requires
            self.ok(),
            0 <= c < self.store@.len(),
            search::satisfied(self.clauses()[c], self.entries()),
            before.len() <= told.len(),
            are_retold::<P, VS, M, O>(earlier, self.entries(), before, told),
        ensures
            are_retold::<P, VS, M, O>(
                earlier,
                self.entries(),
                before,
                told.push(Observed::Conflict(self.store@[c].tree.told())),
            ),
    {
        if observer::always_asks::<P, VS, M, O>() {
            let from = trace::steps_of(earlier);
            let steps = trace::steps_of(self.entries());
            let o = Observed::Conflict(self.cause_told(c));
            self.lemma_satisfied_refutes(c, self.entries());
            assert forall|plain: bool| #[trigger]
                trace::leads(plain, from, steps, before, told.push(o)) by {
                assert(trace::leads(plain, from, steps, before, told));
                trace::lemma_leads_push(plain, from, steps, before, told, o, steps);
            }
        }
    }

    /// After a conflict, going back and taking the step that the root cause calls for.
    proof fn lemma_retold_backjump<O: SolverObserver<P, VS, M>>(
        self,
        scanned: Self,
        c: int,
        jump: Backjump,
        earlier: Seq<Entry<P::V, VS::V>>,
        before: Seq<Observed<P::V, VS::V>>,
        settled: Seq<Observed<P::V, VS::V>>,
        o: Observed<P::V, VS::V>,
    )
        requires
            self.ok(),
            scanned.ok(),
            0 <= c < scanned.store@.len(),
            self.extends(scanned),
            jump.cause < self.store@.len(),
            jump.to_level < jump.from_level,
            jump.from_level == decisions(scanned.trail@).len(),
            self.trail@.len() > 0,
            self.trail@.last().cause == Some(jump.cause),
            self.entries().drop_last() == progress::cut(scanned.entries(), jump.to_level as int),
            search::satisfied(self.clauses()[jump.cause as int], scanned.entries()),
            scanned.hinges_on_decision(c) ==> jump.cause == c,
            o == Observed::<P::V, VS::V>::Backtrack(
                observer::level_told(jump.from_level as int),
                observer::level_told(jump.to_level as int),
                self.store@[jump.cause as int].tree.told(),
            ),
            before.len() < settled.len(),
            settled.last() == Observed::<P::V, VS::V>::Conflict(scanned.store@[c].tree.told()),
            are_retold::<P, VS, M, O>(earlier, scanned.entries(), before, settled),
        ensures
            are_retold::<P, VS, M, O>(
                earlier,
                self.entries(),
                before,
                settled.push(o).push(self.last_derivation()),
            ),
    {
        if observer::always_asks::<P, VS, M, O>() {
            let from = trace::steps_of(earlier);
            let steps = trace::steps_of(scanned.entries());
            let kept = self.entries().drop_last();
            let middle = trace::steps_of(kept);
            let next = trace::steps_of(self.entries());
            let told = settled.push(o);
            let conflict = scanned.cause_told(c);
            let derived = self.last_derivation();
            self.lemma_satisfied_refutes(jump.cause as int, scanned.entries());
            lemma_decisions(scanned.trail@);
            trace::lemma_steps_of(scanned.entries(), self.trail@[0].package@);
            trace::lemma_steps_cut(scanned.entries(), jump.to_level as int);
            assert(self.entries().last().cause == Some(jump.cause as int));
            if trace::hinges_on_decision(steps, conflict) {
                let shorter = scanned.entries().drop_last();
                assert(steps.drop_last() =~= trace::steps_of(shorter));
                let s = choose|s: Map<P::V, VS::V>| #[trigger]
                    trace::fits(steps.drop_last(), s) && !conflict.refuted.contains(s);
                if search::satisfied(scanned.clauses()[c], shorter) {
                    scanned.lemma_satisfied_refutes(c, shorter);
                    assert(trace::fits(trace::steps_of(shorter), s));
                }
                assert(scanned.entries().last().cause is None);
                assert(scanned.hinges_on_decision(c));
                assert(scanned.store@[c] == self.store@.subrange(
                    0,
                    scanned.store@.len() as int,
                )[c]);
            }
            assert forall|plain: bool| #[trigger]
                trace::leads(plain, from, next, before, told.push(derived)) by {
                assert(trace::leads(plain, from, steps, before, settled));
                trace::lemma_leads_push(plain, from, steps, before, settled, o, middle);
                self.lemma_derivation_happens(plain);
                assert(told.last() == o);
                trace::lemma_leads_push(plain, from, middle, before, told, derived, next);
            }
        }
    }

    /// Tell the observer of the derivation that was the last step, if it captures derivation trees.
    fn report_derivation<O: SolverObserver<P, VS, M>>(&self, observer: &mut O)
        requires
            self.ok(),
            self.trail@.len() > 0,
            self.trail@.last().cause is Some,
        ensures
            exists|captures: bool|
                {
                    &&& #[trigger] call_ensures(
                        O::captures_derivation_trees,
                        (&*old(observer),),
                        captures,
                    )
                    &&& final(observer).log() == if captures {
                        old(observer).log().push(self.last_derivation())
                    } else {
                        old(observer).log()
                    }
                },
            observer::on_path(self.last_derivation()),
            final(observer).log() == old(observer).log() || observer::may_ask::<P, VS, M, O>(
                old(observer).log(),
            ),
    {
        let n = self.trail.len() - 1;
        let cause = match self.trail[n].cause {
            Some(c) => c,
            None => 0,
        };
        let ghost e = self.entries()[n as int];
        proof {
            search::lemma_trail_entry(self.atoms@, self.clauses(), self.entries(), n as int);
            let wider = search::open_states(self.entries().take(n as int), e.key);
            let at = search::at(self.clauses()[cause as int], e.key);
            let x = choose|x: Option<VS::V>| wider.contains(x) && at.contains(x);
            assert(!e.set.contains(x));
            assert(self.entries().drop_last() =~= self.entries().take(n as int));
        }
        if observer.captures_derivation_trees() {
            let previous = self.assigned_term(n, &self.trail[n].package);
            let event = SolverEvent::Derivation {
                package: &self.trail[n].package,
                previous: match &previous {
                    Some(term) => Some(term),
                    None => None,
                },
                current: &self.trail[n].term,
                cause: &self.store[cause].tree,
            };
            observer.on_event(event);
        }
    }

    /// Where propagation stands.
    spec fn scan(
        self,
        waiting: Seq<P::V>,
        current: P::V,
        i: int,
        causes: Seq<(P, usize)>,
    ) -> Scan<P::V, VS::V> {
        Scan {
            clauses: self.clauses(),
            trail: self.entries(),
            waiting,
            current,
            i,
            causes: causes_met(causes),
            failed: false,
        }
    }

    /// Propagation gets from where it began to where it stands.
    #[verifier::opaque]
    spec fn is_scanned(
        self,
        root: P::V,
        version: VS::V,
        begin: Scan<P::V, VS::V>,
        waiting: Seq<P::V>,
        current: P::V,
        i: int,
        causes: Seq<(P, usize)>,
    ) -> bool {
        exists|n: nat| #[trigger]
            machine::scanned(root, version, begin, n) == self.scan(waiting, current, i, causes)
    }

    proof fn lemma_scanned_start(self, root: P::V, version: VS::V, next: P::V)
        ensures
            self.is_scanned(
                root,
                version,
                machine::scan_of(self.clauses(), self.entries(), next),
                seq![next],
                next,
                0,
                Seq::empty(),
            ),
    {
        reveal(State::is_scanned);
        let begin = machine::scan_of(self.clauses(), self.entries(), next);
        assert(causes_met(Seq::<(P, usize)>::empty()) =~= Seq::empty());
        assert(machine::scanned(root, version, begin, 0) == self.scan(
            seq![next],
            next,
            0,
            Seq::empty(),
        ));
    }

    /// One step more.
    proof fn lemma_scanned_step(
        self,
        root: P::V,
        version: VS::V,
        begin: Scan<P::V, VS::V>,
        waiting: Seq<P::V>,
        current: P::V,
        i: int,
        causes: Seq<(P, usize)>,
        end: Scan<P::V, VS::V>,
    )
        requires
            self.is_scanned(root, version, begin, waiting, current, i, causes),
            machine::scan_step(root, version, self.scan(waiting, current, i, causes)) == end,
        ensures
            exists|n: nat| #[trigger] machine::scanned(root, version, begin, n) == end,
    {
        reveal(State::is_scanned);
        let n = choose|n: nat| #[trigger]
            machine::scanned(root, version, begin, n) == self.scan(waiting, current, i, causes);
        assert(machine::scanned(root, version, begin, n + 1) == end);
    }

    /// The next package is taken.
    proof fn lemma_scanned_pop(
        self,
        root: P::V,
        version: VS::V,
        begin: Scan<P::V, VS::V>,
        waiting: Seq<P::V>,
        current: P::V,
        causes: Seq<(P, usize)>,
    )
        requires
            self.is_scanned(root, version, begin, waiting, current, 0, causes),
            waiting.len() > 0,
        ensures
            self.is_scanned(
                root,
                version,
                begin,
                waiting.drop_last(),
                waiting.last(),
                self.clauses().len() as int,
                causes,
            ),
    {
        let end = self.scan(
            waiting.drop_last(),
            waiting.last(),
            self.clauses().len() as int,
            causes,
        );
        self.lemma_scanned_step(root, version, begin, waiting, current, 0, causes, end);
        reveal(State::is_scanned);
    }

    /// A clause is passed over.
    proof fn lemma_scanned_skip(
        self,
        root: P::V,
        version: VS::V,
        begin: Scan<P::V, VS::V>,
        waiting: Seq<P::V>,
        current: P::V,
        i: int,
        causes: Seq<(P, usize)>,
    )
        requires
            self.is_scanned(root, version, begin, waiting, current, i + 1, causes),
            0 <= i < self.clauses().len(),
            !search::mentions(self.clauses()[i], current) || machine::standing(
                self.clauses()[i],
                self.entries(),
            ) == Standing::Open,
        ensures
            self.is_scanned(root, version, begin, waiting, current, i, causes),
    {
        let end = self.scan(waiting, current, i, causes);
        self.lemma_scanned_step(root, version, begin, waiting, current, i + 1, causes, end);
        reveal(State::is_scanned);
    }

    /// A clause calls for a step, which is taken.
    proof fn lemma_scanned_derive(
        self,
        before: Self,
        root: P::V,
        version: VS::V,
        begin: Scan<P::V, VS::V>,
        fewer: Seq<P::V>,
        waiting: Seq<P::V>,
        current: P::V,
        i: int,
        causes: Seq<(P, usize)>,
        m: int,
    )
        requires
            before.is_scanned(root, version, begin, fewer, current, i + 1, causes),
            0 <= i < before.clauses().len(),
            search::mentions(before.clauses()[i], current),
            machine::standing(before.clauses()[i], before.entries()) == Standing::Calls(m),
            self.store == before.store,
            self.entries().len() == before.entries().len() + 1,
            self.entries().drop_last() == before.entries(),
            ({
                let e = self.entries().last();
                let k = before.clauses()[i][m].0;
                &&& e.key == k
                &&& e.cause == Some(i)
                &&& e.set == search::open_states(before.entries(), k).intersect(
                    search::at(before.clauses()[i], k).complement(),
                )
                &&& e.level == search::level(before.entries())
            }),
            waiting == if fewer.contains(before.clauses()[i][m].0) {
                fewer
            } else {
                fewer.push(before.clauses()[i][m].0)
            },
        ensures
            self.is_scanned(root, version, begin, waiting, current, i, causes),
    {
        let k = before.clauses()[i][m].0;
        let e = self.entries().last();
        assert(self.clauses() == before.clauses());
        assert(e == machine::derived(before.clauses(), before.entries(), i, k));
        assert(self.entries() =~= before.entries().push(e));
        let end = self.scan(waiting, current, i, causes);
        before.lemma_scanned_step(root, version, begin, fewer, current, i + 1, causes, end);
        reveal(State::is_scanned);
    }

    /// A clause is satisfied, and the solver goes back.
    proof fn lemma_scanned_back(
        self,
        before: Self,
        root: P::V,
        version: VS::V,
        begin: Scan<P::V, VS::V>,
        fewer: Seq<P::V>,
        waiting: Seq<P::V>,
        current: P::V,
        i: int,
        causes: Seq<(P, usize)>,
        more: Seq<(P, usize)>,
        cause: usize,
    )
        requires
            before.is_scanned(root, version, begin, fewer, current, i + 1, causes),
            0 <= i < before.clauses().len(),
            search::mentions(before.clauses()[i], current),
            search::satisfied(before.clauses()[i], before.entries()),
            machine::backjump(before.clauses(), before.entries(), i, root, version) == Some(
                (self.clauses(), self.entries(), cause as int),
            ),
            waiting == seq![self.entries().last().key],
            more.len() == causes.len() + 1,
            more.drop_last() == causes,
            more.last().0@ == self.entries().last().key,
            more.last().1 == cause,
        ensures
            self.is_scanned(root, version, begin, waiting, current, 0, more),
    {
        let k = self.entries().last().key;
        assert(causes_met(more) =~= causes_met(causes).push((k, cause as int))) by {
            assert forall|j: int| 0 <= j < causes.len() implies causes_met(more)[j]
                == causes_met(causes)[j] by {
                assert(more.drop_last()[j] == more[j]);
            }
        }
        let end = self.scan(waiting, current, 0, more);
        before.lemma_scanned_step(root, version, begin, fewer, current, i + 1, causes, end);
        reveal(State::is_scanned);
    }

    /// A clause is satisfied, and there is no solution.
    proof fn lemma_scanned_failed(
        self,
        before: Self,
        root: P::V,
        version: VS::V,
        begin: Scan<P::V, VS::V>,
        fewer: Seq<P::V>,
        current: P::V,
        i: int,
        causes: Seq<(P, usize)>,
    )
        requires
            before.is_scanned(root, version, begin, fewer, current, i + 1, causes),
            0 <= i < before.clauses().len(),
            search::mentions(before.clauses()[i], current),
            search::satisfied(before.clauses()[i], before.entries()),
            machine::backjump(before.clauses(), before.entries(), i, root, version) is None,
            self.store == before.store,
            self.trail@ == before.trail@,
        ensures
            ends_scan(root, version, begin, self.clauses(), self.entries(), None),
    {
        reveal(ends_scan);
        assert(self.clauses() == before.clauses());
        let here = before.scan(fewer, current, i + 1, causes);
        let end = Scan { failed: true, ..here };
        before.lemma_scanned_step(root, version, begin, fewer, current, i + 1, causes, end);
        assert(machine::scans_to(root, version, begin, end));
    }

    /// Nothing waits any more.
    proof fn lemma_scanned_done(
        self,
        root: P::V,
        version: VS::V,
        begin: Scan<P::V, VS::V>,
        waiting: Seq<P::V>,
        current: P::V,
        causes: Seq<(P, usize)>,
    )
        requires
            self.is_scanned(root, version, begin, waiting, current, 0, causes),
            waiting.len() == 0,
        ensures
            ends_scan(
                root,
                version,
                begin,
                self.clauses(),
                self.entries(),
                Some(causes_met(causes)),
            ),
    {
        reveal(ends_scan);
        reveal(State::is_scanned);
        let end = self.scan(waiting, current, 0, causes);
        assert(machine::scans_to(root, version, begin, end));
    }

    /// A step that is taken is progress.
    proof fn lemma_step_taken(
        self,
        before: Self,
        earlier: Seq<Entry<P::V, VS::V>>,
        base: int,
    )
        requires
            before.ok(),
            self.store == before.store,
            self.atoms == before.atoms,
            stems_from(earlier, before.entries(), base),
            ({
                let e = self.entries().last();
                &&& self.entries() == before.entries().push(e)
                &&& e.cause is Some
                &&& search::entry_ok(before.atoms@, before.clauses(), before.entries(), e)
            }),
        ensures
            stems_from(earlier, self.entries(), base),
            search::grounded(before.entries()) ==> search::grounded(self.entries()),
            self.remaining() < before.remaining(),
    {
        let e = self.entries().last();
        let l = search::level(before.entries());
        lemma_stems_push(earlier, before.entries(), base, e);
        if search::grounded(before.entries()) {
            search::lemma_grounded_push(before.entries(), e);
        }
        progress::lemma_cut(before.atoms@, before.clauses(), before.entries(), 0);
        progress::lemma_cut(before.atoms@, before.clauses(), before.entries(), l);
        progress::lemma_derivation_progress(
            before.atoms@,
            before.clauses(),
            before.entries(),
            l,
            e,
        );
    }

    /// What is told of a step that was taken.
    proof fn lemma_derivation_told<O: SolverObserver<P, VS, M>>(
        self,
        first: Self,
        before: Self,
        i: usize,
        causes: Seq<(P, usize)>,
        made: Seq<(P::V, VS::V)>,
        log: Seq<Observed<P::V, VS::V>>,
        told: Seq<Observed<P::V, VS::V>>,
        now: Seq<Observed<P::V, VS::V>>,
    )
        requires
            self.ok(),
            self.extends(first),
            self.store == before.store,
            self.trail@.len() > 0,
            self.trail@.last().cause == Some(i),
            0 <= i < self.store@.len(),
            self.entries().len() == before.entries().len() + 1,
            self.entries().drop_last() == before.entries(),
            decisions(self.trail@) == decisions(before.trail@),
            observer::on_path(self.last_derivation()),
            now == told || (now == told.push(self.last_derivation()) && observer::may_ask::<
                P,
                VS,
                M,
                O,
            >(told)),
            observer::always_asks::<P, VS, M, O>() ==> now == told.push(self.last_derivation()),
            log.is_prefix_of(told),
            in_step::<P, VS, M, O>(made, decisions(before.trail@), log, told),
            are_told::<P, VS, M, O>(before, causes, log, told),
            forall|fact: spec_fn(External<P, VS, M>) -> bool| #[trigger]
                first.rests_on(fact) ==> observer::causes_rest_on(log, told, fact),
            draws_on::<P, VS, M, O>(first, before, log, told),
            are_retold::<P, VS, M, O>(first.entries(), before.entries(), log, told),
            observer::always_asks::<P, VS, M, O>() ==> trail_told(
                first.entries(),
                before.entries(),
                log,
                told,
            ),
        ensures
            in_step::<P, VS, M, O>(made, decisions(self.trail@), log, now),
            are_told::<P, VS, M, O>(self, causes, log, now),
            forall|fact: spec_fn(External<P, VS, M>) -> bool| #[trigger]
                first.rests_on(fact) ==> observer::causes_rest_on(log, now, fact),
            draws_on::<P, VS, M, O>(first, self, log, now),
            are_retold::<P, VS, M, O>(first.entries(), self.entries(), log, now),
            observer::always_asks::<P, VS, M, O>() ==> trail_told(
                first.entries(),
                self.entries(),
                log,
                now,
            ),
    {
        let o = self.last_derivation();
        assert(self.entries().last().cause == Some(i as int));
        if observer::always_asks::<P, VS, M, O>() {
            self.lemma_step_told(told);
            self.lemma_retold_derivation::<O>(first.entries(), log, told);
            lemma_draws_on_push::<P, VS, M, O>(first, before, self, log, told, o, i as int);
            assert(before.entries() =~= before.entries().subrange(
                0,
                before.entries().len() as int,
            ));
            lemma_trail_told_push(before.entries(), self.entries(), told, now);
            assert(told =~= now.subrange(0, told.len() as int));
            lemma_trail_told(first.entries(), before.entries(), self.entries(), log, told, now);
        } else {
            lemma_draws_on_unasked::<P, VS, M, O>(first, self, log, now);
        }
        lemma_are_told::<P, VS, M, O>(before, self, causes, log, told, o);
        if now != told {
            self.lemma_causes_told(first, i as int, log, told, o);
            let left = decisions(self.trail@);
            assert(left =~= left.take(left.len() as int));
            lemma_in_step::<P, VS, M, O>(made, left, left, log, told, o);
        }
    }

    /// What the earlier steps call for has been done: of those from `base` on, and of the package
    /// that was given unless steps were given up.
    pub open spec fn has_caught_up(
        self,
        earlier: Seq<Entry<P::V, VS::V>>,
        next: P::V,
        base: int,
    ) -> bool {
        &&& stems_from(earlier, self.entries(), base)
        &&& self.is_quiet(
            base,
            if base == earlier.len() {
                Some(next)
            } else {
                None
            },
        )
    }

    /// Take every step that follows from the incompatibilities about the package, and from those
    /// steps in turn: in the end no incompatibility about a package that was narrowed calls for a
    /// step, nor one about the given package unless steps were given up. Returns the root causes of
    /// the conflicts met, each with its package.
    #[verifier::rlimit(100)]
    pub fn unit_propagation<O: SolverObserver<P, VS, M>>(
        &mut self,
        next: &P,
        root: &P,
        version: &VS::V,
        observer: &mut O,
    ) -> (r: Result<Vec<(P, usize)>, Arc<DerivationTree<P, VS, M>>>)
        requires
            old(self).ok(),
        ensures
            final(self).ok(),
            final(self).extends(*old(self)),
            selection(final(self).trail@).submap_of(selection(old(self).trail@)),
            search::grounded(old(self).entries()) ==> search::grounded(final(self).entries()),
            in_step::<P, VS, M, O>(
                decisions(old(self).trail@),
                decisions(final(self).trail@),
                old(observer).log(),
                final(observer).log(),
            ),
            draws_on::<P, VS, M, O>(
                *old(self),
                *final(self),
                old(observer).log(),
                final(observer).log(),
            ),
            are_retold::<P, VS, M, O>(
                old(self).entries(),
                final(self).entries(),
                old(observer).log(),
                final(observer).log(),
            ),
            observer::always_asks::<P, VS, M, O>() ==> trail_told(
                old(self).entries(),
                final(self).entries(),
                old(observer).log(),
                final(observer).log(),
            ),
            forall|fact: spec_fn(External<P, VS, M>) -> bool| #[trigger]
                old(self).rests_on(fact) ==> observer::causes_rest_on(
                    old(observer).log(),
                    final(observer).log(),
                    fact,
                ),
            ends_scan(
                root@,
                *version,
                machine::scan_of(old(self).clauses(), old(self).entries(), next@),
                final(self).clauses(),
                final(self).entries(),
                match r {
                    Ok(causes) => Some(causes_met(causes@)),
                    Err(_) => None,
                },
            ),
            match r {
                Ok(causes) => {
                    &&& exists|base: int| #[trigger]
                        final(self).has_caught_up(old(self).entries(), next@, base)
                    &&& final(self).remaining() <= old(self).remaining()
                    &&& old(self).calls_for_step(next@) ==> final(self).remaining() < old(self).remaining()
                    &&& forall|i: int|
                        0 <= i < causes@.len() ==> (#[trigger] causes@[i]).1 < final(self).store@.len()
                    &&& are_told::<P, VS, M, O>(
                        *final(self),
                        causes@,
                        old(observer).log(),
                        final(observer).log(),
                    )
                },
                Err(tree) => {
                    &&& tree.is_sound()
                    &&& forall|s: Map<P::V, VS::V>|
                        s.get(root@) == Some(*version) ==> #[trigger] tree.refutes(s)
                    &&& forall|fact: spec_fn(External<P, VS, M>) -> bool| #[trigger]
                        old(self).rests_on(fact) ==> tree.rests_on(fact)
                },
            },
    {
        let ghost first = *self;
        let ghost log = observer.log();
        let ghost made = decisions(self.trail@);
        let mut causes: Vec<(P, usize)> = Vec::new();
        let mut buffer: Vec<P> = Vec::new();
        buffer.push(next.duplicate());
        let ghost mut started = false;
        let ghost mut base = first.entries().len() as int;
        let ghost mut given = Some(next@);
        let ghost begin = machine::scan_of(first.clauses(), first.entries(), next@);
        let ghost mut seen = next@;
        proof {
            self.lemma_scanned_start(root@, *version, next@);
            assert(causes@ =~= Seq::empty());
            self.lemma_alert_start(next@, next@);
            assert(package::keys(buffer@) =~= seq![next@]);
            assert(first.entries().take(base) =~= first.entries());
            assert(log.is_prefix_of(log));
            assert(made =~= made.take(made.len() as int));
            assert(first.clauses().is_prefix_of(first.clauses()));
            assert(first.store@.is_prefix_of(first.store@));
            observer::lemma_no_levels(
                made.len() as int,
                log,
                observer::always_asks::<P, VS, M, O>(),
            );
            lemma_nothing_retold::<P, VS, M, O>(first.entries(), log);
            lemma_draws_on_nothing::<P, VS, M, O>(first, log);
            lemma_nothing_met::<P, VS, M, O>(first, causes@, log);
        }
        while buffer.len() > 0
            invariant
                first == *old(self),
                log == old(observer).log(),
                self.ok(),
                self.extends(first),
                selection(self.trail@).submap_of(selection(first.trail@)),
                search::grounded(first.entries()) ==> search::grounded(self.entries()),
                in_step::<P, VS, M, O>(made, decisions(self.trail@), log, observer.log()),
                are_told::<P, VS, M, O>(*self, causes@, log, observer.log()),
                forall|fact: spec_fn(External<P, VS, M>) -> bool| #[trigger]
                    first.rests_on(fact) ==> observer::causes_rest_on(log, observer.log(), fact),
                are_retold::<P, VS, M, O>(first.entries(), self.entries(), log, observer.log()),
                draws_on::<P, VS, M, O>(first, *self, log, observer.log()),
                observer::always_asks::<P, VS, M, O>() ==> trail_told(
                    first.entries(),
                    self.entries(),
                    log,
                    observer.log(),
                ),
                made == decisions(first.trail@),
                first.ok(),
                stems_from(first.entries(), self.entries(), base),
                given == if base == first.entries().len() {
                    Some(next@)
                } else {
                    None
                },
                self.is_alert(base, given, package::keys(buffer@), next@, 0),
                begin == machine::scan_of(first.clauses(), first.entries(), next@),
                self.is_scanned(
                    root@,
                    *version,
                    begin,
                    package::keys(buffer@),
                    seen,
                    0,
                    causes@,
                ),
                self.remaining() <= first.remaining(),
                !started ==> *self == first && buffer@.len() == 1 && buffer@[0]@ == next@,
                started ==> first.calls_for_step(next@) ==> self.remaining() < first.remaining(),
                buffer@.len() == 0 ==> started,
                forall|i: int|
                    0 <= i < causes@.len() ==> (#[trigger] causes@[i]).1 < self.store@.len(),
            decreases self.remaining(), buffer@.len(),
        {
            let ghost size = buffer@.len();
            let ghost round = *self;
            proof {
                self.lemma_alert_pop(base, given, package::keys(buffer@), next@);
                assert(package::keys(buffer@).drop_last() =~= package::keys(buffer@.drop_last()));
                self.lemma_scanned_pop(
                    root@,
                    *version,
                    begin,
                    package::keys(buffer@),
                    seen,
                    causes@,
                );
            }
            let current = match buffer.pop() {
                Some(package) => package,
                None => next.duplicate(),
            };
            let mut conflict: Option<usize> = None;
            let mut i = self.store.len();
            while i > 0 && conflict.is_none()
                invariant
                    log == old(observer).log(),
                    self.ok(),
                    self.extends(first),
                    selection(self.trail@).submap_of(selection(first.trail@)),
                    search::grounded(first.entries()) ==> search::grounded(self.entries()),
                    self.store == round.store,
                    self.atoms == round.atoms,
                    i <= self.store@.len(),
                    in_step::<P, VS, M, O>(made, decisions(self.trail@), log, observer.log()),
                    are_told::<P, VS, M, O>(*self, causes@, log, observer.log()),
                    forall|fact: spec_fn(External<P, VS, M>) -> bool| #[trigger]
                        first.rests_on(fact) ==> observer::causes_rest_on(log, observer.log(), fact),
                    draws_on::<P, VS, M, O>(first, *self, log, observer.log()),
                    are_retold::<P, VS, M, O>(
                        first.entries(),
                        self.entries(),
                        log,
                        observer.log(),
                    ),
                    observer::always_asks::<P, VS, M, O>() ==> trail_told(
                        first.entries(),
                        self.entries(),
                        log,
                        observer.log(),
                    ),
                    stems_from(first.entries(), self.entries(), base),
                    self.is_scanned(
                        root@,
                        *version,
                        begin,
                        package::keys(buffer@),
                        current@,
                        if conflict is Some {
                            i + 1
                        } else {
                            i as int
                        },
                        causes@,
                    ),
                    conflict matches Some(c) ==> c == i && search::mentions(
                        self.clauses()[c as int],
                        current@,
                    ),
                    conflict is None ==> self.is_alert(
                        base,
                        given,
                        package::keys(buffer@),
                        current@,
                        i as int,
                    ),
                    self.remaining() <= round.remaining(),
                    self.remaining() == round.remaining() ==> *self == round && buffer@.len()
                        < size,
                    match conflict {
                        Some(c) => c < self.store@.len() && search::satisfied(
                            self.clauses()[c as int],
                            self.entries(),
                        ),
                        None => self.remaining() == round.remaining() ==> forall|j: int|
                            i <= j < self.store@.len() ==> !(#[trigger] self.pressing(
                                j,
                                current@,
                            )),
                    },
                decreases i,
            {
                i -= 1;
                let ghost before = *self;
                assert(self.clauses()[i as int] == term::parts(self.store@[i as int].terms@));
                if find_term(&self.store[i].terms, &current).is_some() {
                    assert(search::clause_ok(self.atoms@, self.clauses()[i as int]));
                    match self.relation(i) {
                        Relation::Satisfied => {
                            conflict = Some(i);
                        },
                        Relation::AlmostSatisfied(j) => {
                            self.derive(i, j);
                            let ghost waiting = package::keys(buffer@);
                            proof {
                                self.lemma_step_taken(before, first.entries(), base);
                            }
                            let ghost told = observer.log();
                            self.report_derivation(observer);
                            proof {
                                assert(self.entries().drop_last() =~= before.entries());
                                self.lemma_derivation_told::<O>(
                                    first,
                                    before,
                                    i,
                                    causes@,
                                    made,
                                    log,
                                    told,
                                    observer.log(),
                                );
                            }
                            let package = self.store[i].terms[j].0.duplicate();
                            if !holds_package(&buffer, &package) {
                                buffer.push(package);
                                assert(package::keys(buffer@) =~= waiting.push(package@));
                                assert(waiting.push(package@)[waiting.len() as int] == package@);
                            }
                            proof {
                                let more = package::keys(buffer@);
                                assert forall|k: P::V| waiting.contains(
                                    k,
                                ) implies #[trigger] more.contains(k) by {
                                    let b = choose|b: int|
                                        0 <= b < waiting.len() && waiting[b] == k;
                                    assert(more[b] == k);
                                }
                                search::lemma_at(self.clauses()[i as int], j as int);
                                assert(self.entries().drop_last() =~= before.entries());
                                self.lemma_scanned_derive(
                                    before,
                                    root@,
                                    *version,
                                    begin,
                                    waiting,
                                    more,
                                    current@,
                                    i as int,
                                    causes@,
                                    j as int,
                                );
                                self.lemma_alert_derive(
                                    before,
                                    base,
                                    given,
                                    waiting,
                                    more,
                                    current@,
                                    i as int,
                                    package@,
                                );
                            }
                        },
                        Relation::Inconclusive => {
                            proof {
                                self.lemma_scanned_skip(
                                    root@,
                                    *version,
                                    begin,
                                    package::keys(buffer@),
                                    current@,
                                    i as int,
                                    causes@,
                                );
                                self.lemma_alert_skip(
                                    base,
                                    given,
                                    package::keys(buffer@),
                                    current@,
                                    i as int,
                                );
                            }
                        },
                    }
                } else {
                    proof {
                        assert(!search::mentions(self.clauses()[i as int], current@));
                        self.lemma_scanned_skip(
                            root@,
                            *version,
                            begin,
                            package::keys(buffer@),
                            current@,
                            i as int,
                            causes@,
                        );
                        self.lemma_alert_skip(
                            base,
                            given,
                            package::keys(buffer@),
                            current@,
                            i as int,
                        );
                    }
                }
            }
            let ghost scanned = *self;
            proof {
                if conflict is None && self.remaining() == round.remaining() && !started {
                    assert(forall|j: int|
                        0 <= j < first.store@.len() ==> !(#[trigger] first.pressing(
                            j,
                            next@,
                        )));
                    assert(!(exists|j: int| #[trigger] first.pressing(j, next@)));
                }
            }
            if let Some(c) = conflict {
                let ghost told = observer.log();
                if observer.captures_derivation_trees() {
                    let event = SolverEvent::Conflict { cause: &self.store[c].tree };
                    proof {
                        self.lemma_causes_told(first, c as int, log, told, event.observed());
                        self.lemma_retold_conflict::<O>(c as int, first.entries(), log, told);
                        lemma_draws_on_push::<P, VS, M, O>(
                            first,
                            *self,
                            *self,
                            log,
                            told,
                            event.observed(),
                            c as int,
                        );
                        lemma_trail_still_told(
                            first.entries(),
                            self.entries(),
                            log,
                            told,
                            event.observed(),
                        );
                        let left = decisions(self.trail@);
                        assert(left =~= left.take(left.len() as int));
                        lemma_are_told::<P, VS, M, O>(
                            *self,
                            *self,
                            causes@,
                            log,
                            told,
                            event.observed(),
                        );
                        lemma_in_step::<P, VS, M, O>(
                            made,
                            left,
                            left,
                            log,
                            told,
                            event.observed(),
                        );
                    }
                    observer.on_event(event);
                }
                let ghost fewer_waiting = package::keys(buffer@);
                let ghost met = causes@;
                match self.resolve_conflict(c, root, version) {
                    Ok(jump) => {
                        let ghost settled = observer.log();
                        let ghost told = observer.log();
                        if observer.captures_derivation_trees() {
                            let event = SolverEvent::Backtrack {
                                from_level: level_number(jump.from_level),
                                to_level: level_number(jump.to_level),
                                cause: &self.store[jump.cause].tree,
                            };
                            proof {
                                lemma_extends(first, scanned, *self);
                                self.lemma_causes_told(
                                    first,
                                    jump.cause as int,
                                    log,
                                    told,
                                    event.observed(),
                                );
                                lemma_in_step::<P, VS, M, O>(
                                    made,
                                    decisions(scanned.trail@),
                                    decisions(self.trail@),
                                    log,
                                    told,
                                    event.observed(),
                                );
                            }
                            observer.on_event(event);
                        } else {
                            proof {
                                lemma_in_step_silently::<P, VS, M, O>(
                                    made,
                                    decisions(scanned.trail@),
                                    decisions(self.trail@),
                                    log,
                                    told,
                                );
                            }
                        }
                        assert(in_step::<P, VS, M, O>(
                            made,
                            decisions(self.trail@),
                            log,
                            observer.log(),
                        ));
                        let ghost told = observer.log();
                        self.report_derivation(observer);
                        proof {
                            lemma_extends(first, scanned, *self);
                            if observer.log() != told {
                                self.lemma_causes_told(
                                    first,
                                    jump.cause as int,
                                    log,
                                    told,
                                    self.last_derivation(),
                                );
                                let left = decisions(self.trail@);
                                assert(left =~= left.take(left.len() as int));
                                lemma_in_step::<P, VS, M, O>(
                                    made,
                                    left,
                                    left,
                                    log,
                                    told,
                                    self.last_derivation(),
                                );
                            }
                        }
                        let affected = self.trail[self.trail.len() - 1].package.duplicate();
                        buffer.clear();
                        buffer.push(affected.duplicate());
                        let ghost fewer = causes@;
                        causes.push((affected, jump.cause));
                        proof {
                            let kept = self.entries().drop_last();
                            let e = self.entries().last();
                            lemma_decisions(scanned.trail@);
                            assert forall|t: int| 0 <= t < first.entries().len() implies (
                            #[trigger] first.entries()[t]).level <= search::level(
                                first.entries(),
                            ) by {
                                progress::lemma_levels(
                                    first.atoms@,
                                    first.clauses(),
                                    first.entries(),
                                    t,
                                );
                            }
                            lemma_stems_back(
                                scanned.atoms@,
                                scanned.clauses(),
                                first.entries(),
                                scanned.entries(),
                                base,
                                jump.to_level as int,
                                e,
                            );
                            assert(kept.push(e) =~= self.entries());
                            base = kept.len() as int;
                            given = None;
                            self.lemma_alert_back(next@);
                            assert(package::keys(buffer@) =~= seq![e.key]);
                            seen = current@;
                            assert(causes@.drop_last() =~= fewer);
                            self.lemma_scanned_back(
                                scanned,
                                root@,
                                *version,
                                begin,
                                fewer_waiting,
                                package::keys(buffer@),
                                current@,
                                c as int,
                                fewer,
                                causes@,
                                jump.cause,
                            );
                            assert(base < first.entries().len());
                            if !observer::always_asks::<P, VS, M, O>() {
                                lemma_draws_on_unasked::<P, VS, M, O>(
                                    first,
                                    *self,
                                    log,
                                    observer.log(),
                                );
                            } else {
                                lemma_draws_on_back::<P, VS, M, O>(
                                    first,
                                    scanned,
                                    *self,
                                    log,
                                    settled,
                                    told.last(),
                                    jump.cause as int,
                                );
                                assert(settled.push(told.last()) =~= told);
                                lemma_draws_on_push::<P, VS, M, O>(
                                    first,
                                    *self,
                                    *self,
                                    log,
                                    told,
                                    self.last_derivation(),
                                    jump.cause as int,
                                );
                            }
                            if observer::always_asks::<P, VS, M, O>() {
                                assert(told.drop_last() =~= settled);
                                assert(observer.log() == told.push(self.last_derivation()));
                                assert(observer.log().drop_last() =~= told);
                                self.lemma_step_told(told);
                                self.lemma_retold_backjump::<O>(
                                    scanned,
                                    c as int,
                                    jump,
                                    first.entries(),
                                    log,
                                    settled,
                                    told.last(),
                                );
                                lemma_step_told_later(
                                    self.entries(),
                                    settled,
                                    told,
                                    observer.log(),
                                );
                                lemma_trail_told_push(
                                    scanned.entries(),
                                    self.entries(),
                                    settled,
                                    observer.log(),
                                );
                                assert(settled =~= observer.log().subrange(
                                    0,
                                    settled.len() as int,
                                ));
                                lemma_trail_told(
                                    first.entries(),
                                    scanned.entries(),
                                    self.entries(),
                                    log,
                                    settled,
                                    observer.log(),
                                );
                            }
                            lemma_one_more_told::<P, VS, M, O>(
                                scanned,
                                *self,
                                fewer,
                                (affected, jump.cause),
                                log,
                                settled,
                                told,
                                observer.log(),
                            );
                            lemma_extends(first, scanned, *self);
                            lemma_submap_chain(
                                selection(self.trail@),
                                selection(scanned.trail@),
                                selection(first.trail@),
                            );
                        }
                    },
                    Err(tree) => {
                        proof {
                            self.lemma_scanned_failed(
                                scanned,
                                root@,
                                *version,
                                begin,
                                fewer_waiting,
                                current@,
                                c as int,
                                met,
                            );
                            lemma_draws_on_same::<P, VS, M, O>(
                                first,
                                scanned,
                                *self,
                                log,
                                observer.log(),
                            );
                            lemma_extends(first, scanned, *self);
                            lemma_submap_chain(
                                selection(self.trail@),
                                selection(scanned.trail@),
                                selection(first.trail@),
                            );
                        }
                        return Err(tree);
                    },
                }
            }
            proof {
                started = true;
                if conflict is None {
                    seen = current@;
                    self.lemma_alert_current(base, given, package::keys(buffer@), current@, next@);
                }
            }
        }
        proof {
            self.lemma_alert_done(base, given, package::keys(buffer@), next@);
            assert(self.has_caught_up(first.entries(), next@, base));
            self.lemma_scanned_done(
                root@,
                *version,
                begin,
                package::keys(buffer@),
                seen,
                causes@,
            );
        }
        Ok(causes)
    }
}

impl<P: Package, VS: VersionSet, M> State<P, VS, M> {
    /// Add a fact as an incompatibility, unless it says that nothing at all is possible.
    pub fn add(&mut self, terms: Vec<(P, Term<VS>)>, external: External<P, VS, M>) -> (r: Option<
        usize,
    >)
        requires
            old(self).ok(),
            term::parts(terms@) == external.clause(),
        ensures
            final(self).ok(),
            final(self).trail == old(self).trail,
            final(self).grows_by_facts(*old(self)),
            old(self).atoms@.is_prefix_of(final(self).atoms@),
            old(self).clauses().is_prefix_of(final(self).clauses()),
            forall|fact: spec_fn(External<P, VS, M>) -> bool|
                old(self).rests_on(fact) && fact(external) ==> #[trigger] final(self).rests_on(fact),
            match r {
                Some(i) => {
                    &&& i == old(self).store@.len()
                    &&& final(self).store@.len() == i + 1
                    &&& final(self).clauses()[i as int].len() > 0
                    &&& final(self).clauses() == old(self).clauses().push(
                        machine::tidied(term::parts(terms@)),
                    )
                    &&& forall|s: Map<P::V, VS::V>| #[trigger]
                        search::violates(final(self).clauses()[i as int], s) <==> search::violates(
                            term::parts(terms@),
                            s,
                        )
                    &&& forall|k: P::V| #[trigger]
                        search::mentions(final(self).clauses()[i as int], k) <==> search::speaks_of(
                            term::parts(terms@),
                            k,
                        )
                },
                None => {
                    &&& *final(self) == *old(self)
                    &&& machine::tidied(term::parts(terms@)).len() == 0
                    &&& forall|s: Map<P::V, VS::V>| #[trigger]
                        search::violates(term::parts(terms@), s)
                },
            },
    {
        let ghost given = term::parts(terms@);
        let merged = merge_terms(terms);
        let ghost clause = term::parts(merged@);
        if merged.len() == 0 {
            proof {
                assert forall|s: Map<P::V, VS::V>| #[trigger] search::violates(given, s) by {
                    assert(search::violates(clause, s));
                }
                assert(self.atoms@.is_prefix_of(self.atoms@));
                assert(self.clauses().is_prefix_of(self.clauses()));
                assert(self.store@.is_prefix_of(self.store@));
            }
            return None;
        }
        let ghost coarse = self.atoms@;
        let ghost finer = coarse + clause;
        let ghost store = self.clauses();
        proof {
            assert(coarse.is_prefix_of(finer));
            search::lemma_store_grow(coarse, finer, store);
            assert(store.is_prefix_of(store));
            search::lemma_trail_grow(coarse, store, self.entries(), finer, store);
            assert forall|i: int| 0 <= i < clause.len() implies {
                &&& (#[trigger] clause[i]).1 != Set::<Option<VS::V>>::full()
                &&& search::respects(finer, clause[i].0, clause[i].1)
                &&& search::mentions(finer, clause[i].0)
            } by {
                assert(merged@[i].1@ == clause[i].1);
                assert(finer[coarse.len() + i] == clause[i]);
                search::lemma_atom_respects(finer, coarse.len() + i);
            }
        }
        self.atoms = Ghost(finer);
        assert(self.clauses() =~= store);
        let index = self.store.len();
        let added = Incompatibility {
            terms: merged,
            tree: Arc::new(DerivationTree::External(external)),
        };
        proof {
            assert forall|s: Map<P::V, VS::V>| #[trigger]
                search::violates(added.clause(), s) implies added.tree.refutes(s) by {
                assert(search::violates(given, s));
            }
            assert forall|k: P::V| #[trigger]
                search::mentions(added.clause(), k) implies added.tree.involves(k) by {
                assert(search::mentions(given, k));
            }
        }
        let ghost tree = added.tree;
        let ghost before = *self;
        self.learn(added);
        proof {
            assert(tree.is_fact());
            assert(old(self).store@ =~= self.store@.subrange(0, old(self).store@.len() as int));
            assert forall|fact: spec_fn(External<P, VS, M>) -> bool|
                old(self).rests_on(fact) && fact(external) implies #[trigger] self.rests_on(
                fact,
            ) by {
                assert forall|i: int| 0 <= i < self.store@.len() implies (
                #[trigger] self.store@[i]).tree.rests_on(fact) by {
                    if i < store.len() {
                        assert(self.store@[i] == old(self).store@[i]);
                    } else {
                        assert(tree.rests_on(fact));
                    }
                }
            }
        }
        Some(index)
    }

    /// Note that the package has no version in the set, which is part of what is left open for it.
    pub fn add_no_versions(&mut self, package: &P, set: &VS)
        requires
            old(self).ok(),
            search::mentions(old(self).atoms@, package@),
            search::respects(old(self).atoms@, package@, term::selected_in(set@)),
            term::selected_in(set@).subset_of(
                search::open_states(old(self).entries(), package@),
            ),
            set@ != Set::<VS::V>::empty(),
        ensures
            final(self).ok(),
            final(self).trail == old(self).trail,
            final(self).atoms@ == old(self).atoms@,
            final(self).grows_by_facts(*old(self)),
            final(self).clauses() == old(self).clauses().push(
                seq![(package@, term::selected_in(set@))],
            ),
            old(self).clauses().is_prefix_of(final(self).clauses()),
            final(self).remaining() == old(self).remaining(),
            final(self).calls_for_step(package@),
            forall|fact: spec_fn(External<P, VS, M>) -> bool|
                old(self).rests_on(fact) && (forall|p: P, vs: VS|
                    p@ == package@ && vs@ == set@ ==> #[trigger] fact(External::NoVersions(p, vs)))
                    ==> #[trigger] final(self).rests_on(fact),
    {
        let ghost store = self.clauses();
        let mut terms: Vec<(P, Term<VS>)> = Vec::new();
        terms.push((package.duplicate(), Term::Positive(set.duplicate())));
        let ghost clause = term::parts(terms@);
        let external = External::NoVersions(package.duplicate(), set.duplicate());
        let added = Incompatibility {
            terms,
            tree: Arc::new(DerivationTree::External(external)),
        };
        let ghost tree = added.tree;
        proof {
            assert(clause[0] == (package@, term::selected_in(set@)));
            assert(clause =~= seq![(package@, term::selected_in(set@))]);
            assert(!clause[0].1.contains(None));
            assert(external.clause() =~= clause);
            assert(search::clause_ok(self.atoms@, clause));
            lemma_names(clause);
        }
        self.learn(added);
        proof {
            assert(tree.is_fact());
            assert(old(self).store@ =~= self.store@.subrange(0, old(self).store@.len() as int));
            let i = store.len() as int;
            assert(self.clauses()[i] == clause);
            search::lemma_at(clause, 0);
            let v = choose|v: VS::V| set@.contains(v);
            assert(exists|v: VS::V| set@.contains(v)) by {
                if forall|v: VS::V| !set@.contains(v) {
                    assert(set@ =~= Set::empty());
                }
            }
            assert(term::selected_in(set@).contains(Some(v)));
            assert(self.pressing(i, package@));
            assert forall|fact: spec_fn(External<P, VS, M>) -> bool|
                old(self).rests_on(fact) && (forall|p: P, vs: VS|
                    p@ == package@ && vs@ == set@ ==> #[trigger] fact(External::NoVersions(p, vs)))
                implies #[trigger] self.rests_on(fact) by {
                assert forall|x: int| 0 <= x < self.store@.len() implies (
                #[trigger] self.store@[x]).tree.rests_on(fact) by {
                    if x < store.len() {
                        assert(self.store@[x] == old(self).store@[x]);
                    } else {
                        assert(tree.rests_on(fact));
                    }
                }
            }
        }
    }

    /// Decide on the version of the package.
    pub fn decide(&mut self, package: &P, version: &VS::V)
        requires
            old(self).ok(),
            search::mentions(old(self).atoms@, package@),
            !search::decided(old(self).entries(), package@),
            search::open_states(old(self).entries(), package@).contains(Some(*version)),
        ensures
            final(self).ok(),
            final(self).store == old(self).store,
            final(self).atoms == old(self).atoms,
            final(self).remaining() < old(self).remaining(),
            selection(final(self).trail@) == selection(old(self).trail@).insert(
                package@,
                *version,
            ),
            search::level(final(self).entries()) == search::level(old(self).entries()) + 1,
            final(self).trail@.len() == old(self).trail@.len() + 1,
            decisions(final(self).trail@) == decisions(old(self).trail@).push((package@, *version)),
            final(self).entries() == old(self).entries().push(
                Entry {
                    key: package@,
                    set: term::only(*version),
                    cause: None,
                    level: search::level(old(self).entries()) + 1,
                },
            ),
            final(self).entries().drop_last() == old(self).entries(),
            final(self).entries().last().cause is None,
            search::grounded(old(self).entries()) && !search::open_states(
                old(self).entries(),
                package@,
            ).contains(None) ==> search::grounded(final(self).entries()),
    {
        let term = Term::Positive(VS::singleton(version.duplicate()));
        let step = Assignment {
            package: package.duplicate(),
            term,
            cause: None,
            version: Some(version.duplicate()),
        };
        proof {
            lemma_entries_push(self.trail@, step);
            let e = entries(self.trail@.push(step)).last();
            assert(e.set == term::only(*version));
            assert(e.set.contains(Some(*version)));
            assert(search::at_most_one(e.set));
            assert(search::entry_ok(self.atoms@, self.clauses(), self.entries(), e));
            search::lemma_trail_push(self.atoms@, self.clauses(), self.entries(), e);
            if search::grounded(self.entries()) && !search::open_states(
                self.entries(),
                package@,
            ).contains(None) {
                search::lemma_grounded_push(self.entries(), e);
            }
            progress::lemma_decision_progress(self.atoms@, self.clauses(), self.entries(), e);
            assert(entries(self.trail@.push(step)).drop_last() =~= self.entries());
            assert(self.trail@.push(step).drop_last() =~= self.trail@);
        }
        self.trail.push(step);
    }

    /// Whether the incompatibility is certain with the package at the version.
    pub fn satisfied_given(&self, i: usize, package: &P, version: &VS::V) -> (r: bool)
        requires
            i < self.store@.len(),
        ensures
            r == search::satisfied_given(
                self.clauses()[i as int],
                self.entries(),
                package@,
                Some(*version),
            ),
    {
        let n = self.trail.len();
        let terms = &self.store[i].terms;
        let ghost clause = self.clauses()[i as int];
        let ghost trail = self.entries();
        assert(trail.take(n as int) =~= trail);
        let mut m: usize = 0;
        while m < terms.len()
            invariant
                n == self.trail@.len(),
                trail == self.entries(),
                trail.take(n as int) == trail,
                i < self.store@.len(),
                clause == self.clauses()[i as int],
                clause == term::parts(terms@),
                m <= terms@.len(),
                forall|j: int|
                    0 <= j < m ==> search::certain_given(
                        #[trigger] clause[j],
                        trail,
                        package@,
                        Some(*version),
                    ),
            decreases terms@.len() - m,
        {
            let holds = if terms[m].0.same(package) {
                terms[m].1.contains(version)
            } else {
                self.open_term(n, &terms[m].0).subset_of(&terms[m].1)
            };
            assert(clause[m as int] == (terms@[m as int].0@, terms@[m as int].1@));
            if !holds {
                assert(!search::certain_given(clause[m as int], trail, package@, Some(*version)));
                return false;
            }
            m += 1;
        }
        true
    }
}

pub proof fn lemma_grows_by_facts<P: Package, VS: VersionSet, M>(
    a: State<P, VS, M>,
    b: State<P, VS, M>,
    c: State<P, VS, M>,
)
    requires
        b.grows_by_facts(a),
        c.grows_by_facts(b),
    ensures
        c.grows_by_facts(a),
{
    observer::lemma_prefix_chain(a.store@, b.store@, c.store@);
    assert forall|i: int| a.store@.len() <= i < c.store@.len() implies (#[trigger]
    c.store@[i]).tree.is_fact() by {
        if i < b.store@.len() {
            assert(b.store@[i] == c.store@.subrange(0, b.store@.len() as int)[i]);
        }
    }
}

pub proof fn lemma_extends<P: Package, VS: VersionSet, M>(
    a: State<P, VS, M>,
    b: State<P, VS, M>,
    c: State<P, VS, M>,
)
    requires
        b.extends(a),
        c.extends(b),
    ensures
        c.extends(a),
{
    assert forall|i: int| 0 <= i < a.clauses().len() implies a.clauses()[i] == c.clauses()[i] by {
        assert(a.clauses()[i] == b.clauses()[i]);
        assert(b.clauses()[i] == c.clauses()[i]);
    }
    assert(a.clauses() =~= c.clauses().subrange(0, a.clauses().len() as int));
    observer::lemma_prefix_chain(a.store@, b.store@, c.store@);
    assert forall|fact: spec_fn(External<P, VS, M>) -> bool| #[trigger] a.rests_on(
        fact,
    ) implies c.rests_on(fact) by {
        assert(b.rests_on(fact));
    }
}

} // verus!
