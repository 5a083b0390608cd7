//! Exact finite-domain reduction before Pareto factor enumeration.
//!
//! Edges are residual incompatibilities, not the union of all metadata references. In particular,
//! a dependency already satisfied by every remaining value does not couple its consumers.

pub mod independence;
pub mod partition;
pub mod substitution;

use vstd::prelude::*;

use crate::error;
use crate::error::PubGrubError;
use crate::package;
use crate::package::Package;
use crate::polls;
use crate::polls::Polls;
use crate::problem;
use crate::problem::{Key, Selection, VersionOf};
use crate::provider;
use crate::provider::{Dependencies, DependencyProvider, IncompatibilityConstraintTerm};
use crate::run;
use crate::search;
use crate::search::Clause;
use crate::term;
use crate::term::Term;
use crate::version::Version;
use crate::version_set::VersionSet;

verus! {

/// A package with the states that it may be in; `None` is the absent package.
pub struct Domain<P, V> {
    pub package: P,
    pub values: Vec<Option<V>>,
}

/// What identifies the packages of the domains.
pub open spec fn names<P: Package, V>(domains: Seq<Domain<P, V>>) -> Seq<P::V> {
    Seq::new(domains.len(), |i: int| domains[i].package@)
}

/// The clause over packages that a clause over their places stands for.
pub open spec fn named<K, VS: VersionSet>(packages: Seq<K>, clause: Seq<(usize, Term<VS>)>) -> Clause<
    K,
    VS::V,
> {
    Seq::new(clause.len(), |i: int| (packages[clause[i].0 as int], clause[i].1@))
}

/// All places in the clause are below the bound.
pub open spec fn in_range<VS>(clause: Seq<(usize, Term<VS>)>, n: int) -> bool {
    forall|i: int| 0 <= i < clause.len() ==> (#[trigger] clause[i]).0 < n
}

/// The clause is about the place.
pub open spec fn is_about<VS>(clause: Seq<(usize, Term<VS>)>, id: int) -> bool {
    exists|i: int| 0 <= i < clause.len() && (#[trigger] clause[i]).0 == id
}

/// Every package is in one of the states of its domain.
pub open spec fn within<P: Package, V>(domains: Seq<Domain<P, V>>, s: Map<P::V, V>) -> bool {
    forall|i: int|
        0 <= i < domains.len() ==> (#[trigger] domains[i]).values@.contains(
            s.get(domains[i].package@),
        )
}

/// How often the clause speaks of the package.
pub open spec fn part_count<K, V>(rule: Clause<K, V>, k: K) -> nat
    decreases rule.len(),
{
    if rule.len() == 0 {
        0
    } else {
        part_count(rule.drop_last(), k) + if rule.last().0 == k {
            1nat
        } else {
            0nat
        }
    }
}

/// How often the clauses speak of the package.
pub open spec fn frequency<K, V>(rules: Seq<Clause<K, V>>, k: K) -> nat
    decreases rules.len(),
{
    if rules.len() == 0 {
        0
    } else {
        frequency(rules.drop_last(), k) + part_count(rules.last(), k)
    }
}

/// Finite provider clauses, shared by residual decomposition and substitution proofs.
pub struct ConstraintModel<P: Package, VS: VersionSet> {
    domains: Vec<Domain<P, VS::V>>,
    clauses: Vec<Vec<(usize, Term<VS>)>>,
    occurrences: Vec<Vec<usize>>,
}

impl<P: Package, VS: VersionSet> ConstraintModel<P, VS> {
    /// The packages with the states that they may be in.
    pub closed spec fn domains(self) -> Seq<Domain<P, VS::V>> {
        self.domains@
    }

    /// What identifies the packages.
    pub open spec fn packages(self) -> Seq<P::V> {
        names(self.domains())
    }

    /// The clauses that must not be violated.
    pub closed spec fn rules(self) -> Seq<Clause<P::V, VS::V>> {
        Seq::new(
            self.clauses@.len(),
            |i: int| named(names(self.domains@), self.clauses@[i]@),
        )
    }

    /// No package has two domains, and each place knows the clauses about it.
    pub closed spec fn wf(self) -> bool {
        &&& names(self.domains@).no_duplicates()
        &&& forall|c: int|
            0 <= c < self.clauses@.len() ==> in_range(
                (#[trigger] self.clauses@[c])@,
                self.domains@.len() as int,
            )
        &&& self.occurrences@.len() == self.domains@.len()
        &&& forall|id: int, m: int|
            0 <= id < self.occurrences@.len() && 0 <= m < self.occurrences@[id]@.len() ==> (
            #[trigger] self.occurrences@[id]@[m]) < self.clauses@.len() && is_about(
                self.clauses@[self.occurrences@[id]@[m] as int]@,
                id,
            )
        &&& forall|id: int, c: int|
            0 <= id < self.domains@.len() && 0 <= c < self.clauses@.len() && #[trigger] is_about(
                self.clauses@[c]@,
                id,
            ) ==> self.occurrences@[id]@.contains(c as usize)
        &&& forall|id: int|
            0 <= id < self.domains@.len() ==> (#[trigger] self.occurrences@[id])@.len()
                == frequency(self.rules(), names(self.domains@)[id])
    }

    /// The packages are distinct, and the clauses are about them.
    pub proof fn lemma_wf(self)
        requires
            self.wf(),
        ensures
            self.packages().no_duplicates(),
            forall|c: int, i: int|
                0 <= c < self.rules().len() && 0 <= i < self.rules()[c].len()
                    ==> self.packages().contains((#[trigger] self.rules()[c][i]).0),
    {
        assert forall|c: int, i: int|
            0 <= c < self.rules().len() && 0 <= i < self.rules()[c].len() implies self.packages().contains(
        (#[trigger] self.rules()[c][i]).0) by {
            let clause = self.clauses@[c]@;
            assert(in_range(self.clauses@[c]@, self.domains@.len() as int));
            assert(clause[i].0 < self.domains@.len());
            assert(self.packages()[clause[i].0 as int] == self.rules()[c][i].0);
        }
    }

    /// The selection violates no clause.
    pub open spec fn allows(self, s: Map<P::V, VS::V>) -> bool {
        problem::avoids(self.rules(), s)
    }

    /// The model of the packages with their states, and of the clauses over their places.
    pub fn new(
        domains: Vec<Domain<P, VS::V>>,
        clauses: Vec<Vec<(usize, Term<VS>)>>,
    ) -> (r: Self)
        requires
            names(domains@).no_duplicates(),
            forall|c: int|
                0 <= c < clauses@.len() ==> in_range(
                    (#[trigger] clauses@[c])@,
                    domains@.len() as int,
                ),
        ensures
            r.wf(),
            r.domains() == domains@,
            r.rules() == Seq::new(
                clauses@.len(),
                |i: int| named(names(domains@), clauses@[i]@),
            ),
    {
        let n = domains.len();
        let ghost packages = names(domains@);
        let ghost rules = Seq::new(clauses@.len(), |i: int| named(packages, clauses@[i]@));
        let mut occurrences: Vec<Vec<usize>> = Vec::new();
        while occurrences.len() < n
            invariant
                occurrences@.len() <= n,
                forall|id: int| 0 <= id < occurrences@.len() ==> (#[trigger] occurrences@[id])@.len() == 0,
            decreases n - occurrences@.len(),
        {
            occurrences.push(Vec::new());
        }
        let mut c: usize = 0;
        assert(rules.take(0) =~= Seq::empty());
        while c < clauses.len()
            invariant
                n == domains@.len(),
                packages == names(domains@),
                packages.no_duplicates(),
                rules == Seq::new(clauses@.len(), |i: int| named(packages, clauses@[i]@)),
                forall|id: int|
                    0 <= id < n ==> (#[trigger] occurrences@[id])@.len() == frequency(
                        rules.take(c as int),
                        packages[id],
                    ),
                forall|c: int| 0 <= c < clauses@.len() ==> in_range((#[trigger] clauses@[c])@, n as int),
                occurrences@.len() == n,
                c <= clauses@.len(),
                forall|id: int, m: int|
                    0 <= id < n && 0 <= m < occurrences@[id]@.len() ==> (
                    #[trigger] occurrences@[id]@[m]) < clauses@.len() && is_about(
                        clauses@[occurrences@[id]@[m] as int]@,
                        id,
                    ),
                forall|id: int, d: int|
                    0 <= id < n && 0 <= d < c && #[trigger] is_about(clauses@[d]@, id)
                        ==> occurrences@[id]@.contains(d as usize),
            decreases clauses@.len() - c,
        {
            let clause = &clauses[c];
            let ghost rule = rules[c as int];
            let mut j: usize = 0;
            assert(rule.take(0) =~= Seq::empty());
            while j < clause.len()
                invariant
                    n == domains@.len(),
                    packages == names(domains@),
                    packages.no_duplicates(),
                    rule == named(packages, clause@),
                    forall|id: int|
                        0 <= id < n ==> (#[trigger] occurrences@[id])@.len() == frequency(
                            rules.take(c as int),
                            packages[id],
                        ) + part_count(rule.take(j as int), packages[id]),
                    in_range(clause@, n as int),
                    occurrences@.len() == n,
                    c < clauses@.len(),
                    clause@ == clauses@[c as int]@,
                    j <= clause@.len(),
                    forall|id: int, m: int|
                        0 <= id < n && 0 <= m < occurrences@[id]@.len() ==> (
                        #[trigger] occurrences@[id]@[m]) < clauses@.len() && is_about(
                            clauses@[occurrences@[id]@[m] as int]@,
                            id,
                        ),
                    forall|id: int, d: int|
                        0 <= id < n && 0 <= d < c && #[trigger] is_about(clauses@[d]@, id)
                            ==> occurrences@[id]@.contains(d as usize),
                    forall|i: int|
                        0 <= i < j ==> occurrences@[(#[trigger] clause@[i]).0 as int]@.contains(c),
                decreases clause@.len() - j,
            {
                let id = clause[j].0;
                assert(clause@[j as int].0 < n);
                let ghost before = occurrences@;
                let ghost list = occurrences@[id as int]@;
                occurrences[id].push(c);
                proof {
                    assert(occurrences@[id as int]@ == list.push(c));
                    assert(list.push(c)[list.len() as int] == c);
                    assert(rule.take(j + 1).drop_last() =~= rule.take(j as int));
                    assert(rule.take(j + 1).last().0 == packages[id as int]);
                    assert forall|other: int| 0 <= other < n && other != id implies occurrences@[other]
                        == before[other] by {}
                    assert forall|x: usize| list.contains(x) implies #[trigger] list.push(
                        c,
                    ).contains(x) by {
                        let m = choose|m: int| 0 <= m < list.len() && list[m] == x;
                        assert(list.push(c)[m] == x);
                    }
                    assert forall|i: int| 0 <= i < j + 1 implies occurrences@[(
                    #[trigger] clause@[i]).0 as int]@.contains(c) by {
                        assert(clause@[i].0 < n);
                    }
                    assert forall|x: int, m: int|
                        0 <= x < n && 0 <= m < occurrences@[x]@.len() implies (
                    #[trigger] occurrences@[x]@[m]) < clauses@.len() && is_about(
                        clauses@[occurrences@[x]@[m] as int]@,
                        x,
                    ) by {
                        assert(clause@[j as int].0 == id);
                        if x == id {
                            if m < list.len() {
                                assert(before[x]@[m] < clauses@.len());
                            }
                        } else {
                            assert(before[x]@[m] < clauses@.len());
                        }
                    }
                }
                j += 1;
            }
            proof {
                assert(rule.take(j as int) =~= rule);
                assert(rules.take(c + 1).drop_last() =~= rules.take(c as int));
                assert(rules.take(c + 1).last() == rule);
                assert forall|id: int, d: int|
                    0 <= id < n && 0 <= d < c + 1 && #[trigger] is_about(
                        clauses@[d]@,
                        id,
                    ) implies occurrences@[id]@.contains(d as usize) by {
                    if d == c {
                        let i = choose|i: int|
                            0 <= i < clause@.len() && (#[trigger] clause@[i]).0 == id;
                        assert(occurrences@[clause@[i].0 as int]@.contains(c));
                    }
                }
            }
            c += 1;
        }
        assert(rules.take(c as int) =~= rules);
        let r = ConstraintModel { domains, clauses, occurrences };
        assert(r.rules() =~= Seq::new(
            clauses@.len(),
            |i: int| named(names(domains@), clauses@[i]@),
        ));
        r
    }
}

/// Whether the term holds of the package state.
pub fn matches<VS: VersionSet>(term: &Term<VS>, value: Option<&VS::V>) -> (r: bool)
    ensures
        r == term@.contains(
            match value {
                Some(v) => Some(*v),
                None => None,
            },
        ),
{
    match value {
        Some(v) => term.contains(v),
        None => match term {
            Term::Positive(_) => false,
            Term::Negative(_) => true,
        },
    }
}

/// Whether the term holds of the package state.
pub(crate) fn matches_state<VS: VersionSet>(term: &Term<VS>, value: &Option<VS::V>) -> (r: bool)
    ensures
        r == term@.contains(*value),
{
    match value {
        Some(v) => matches(term, Some(v)),
        None => matches(term, None),
    }
}

/// The parts with at most one per package, which holds the states that all parts for it hold, in the
/// order in which the packages come first.
pub open spec fn merged<K, V>(clause: Clause<K, V>) -> Clause<K, V>
    decreases clause.len(),
{
    if clause.len() == 0 {
        Seq::empty()
    } else {
        let before = merged(clause.drop_last());
        let last = clause.last();
        if search::mentions(before, last.0) {
            Seq::new(
                before.len(),
                |i: int|
                    if before[i].0 == last.0 {
                        (last.0, before[i].1.intersect(last.1))
                    } else {
                        before[i]
                    },
            )
        } else {
            before.push(last)
        }
    }
}

/// Merging keeps what the clause is about and what violates it, and leaves one part per package.
pub proof fn lemma_merged<K, V>(clause: Clause<K, V>)
    ensures
        search::distinct(merged(clause)),
        forall|k: K| #[trigger]
            search::mentions(merged(clause), k) <==> search::mentions(clause, k),
        forall|s: Map<K, V>| #[trigger]
            search::violates(merged(clause), s) <==> search::violates(clause, s),
    decreases clause.len(),
{
    if clause.len() > 0 {
        let shorter = clause.drop_last();
        let before = merged(shorter);
        let after = merged(clause);
        let last = clause.last();
        let n = clause.len() - 1;
        lemma_merged(shorter);
        assert forall|k: K| #[trigger] search::mentions(after, k) <==> search::mentions(
            clause,
            k,
        ) by {
            if search::mentions(clause, k) {
                let i = choose|i: int| 0 <= i < clause.len() && (#[trigger] clause[i]).0 == k;
                if i < n {
                    assert(shorter[i].0 == k);
                    assert(search::mentions(shorter, k));
                    assert(search::mentions(before, k));
                    let j = choose|j: int| 0 <= j < before.len() && (#[trigger] before[j]).0 == k;
                    assert(after[j].0 == k);
                } else if search::mentions(before, k) {
                    let j = choose|j: int| 0 <= j < before.len() && (#[trigger] before[j]).0 == k;
                    assert(after[j].0 == k);
                } else {
                    assert(after[before.len() as int].0 == k);
                }
            }
            if search::mentions(after, k) {
                let j = choose|j: int| 0 <= j < after.len() && (#[trigger] after[j]).0 == k;
                if j < before.len() {
                    assert(before[j].0 == k);
                    assert(search::mentions(before, k));
                    let i = choose|i: int| 0 <= i < shorter.len() && (#[trigger] shorter[i]).0 == k;
                    assert(clause[i].0 == k);
                } else {
                    assert(clause[n].0 == k);
                }
            }
        }
        assert(search::distinct(after)) by {
            assert forall|i: int, j: int| 0 <= i < j < after.len() implies (
            #[trigger] after[i]).0 != (#[trigger] after[j]).0 by {
                if j < before.len() {
                    assert(after[i].0 == before[i].0 && after[j].0 == before[j].0);
                } else {
                    assert(after[i] == before[i]);
                }
            }
        }
        assert forall|s: Map<K, V>| #[trigger] search::violates(after, s) <==> search::violates(
            clause,
            s,
        ) by {
            assert(search::violates(before, s) <==> search::violates(shorter, s));
            if search::violates(clause, s) {
                assert forall|i: int| 0 <= i < shorter.len() implies (
                #[trigger] shorter[i]).1.contains(s.get(shorter[i].0)) by {
                    assert(clause[i] == shorter[i]);
                }
                assert(clause[n].1.contains(s.get(clause[n].0)));
                assert forall|j: int| 0 <= j < after.len() implies (#[trigger] after[j]).1.contains(
                    s.get(after[j].0),
                ) by {
                    if j < before.len() {
                        assert(before[j].1.contains(s.get(before[j].0)));
                    }
                }
            }
            if search::violates(after, s) {
                assert forall|j: int| 0 <= j < before.len() implies (
                #[trigger] before[j]).1.contains(s.get(before[j].0)) by {
                    assert(after[j].1.contains(s.get(after[j].0)));
                }
                assert(last.1.contains(s.get(last.0))) by {
                    if search::mentions(before, last.0) {
                        let j = choose|j: int|
                            0 <= j < before.len() && (#[trigger] before[j]).0 == last.0;
                        assert(after[j].1.contains(s.get(after[j].0)));
                    } else {
                        assert(after[before.len() as int].1.contains(
                            s.get(after[before.len() as int].0),
                        ));
                    }
                }
                assert forall|i: int| 0 <= i < clause.len() implies (
                #[trigger] clause[i]).1.contains(s.get(clause[i].0)) by {
                    if i < n {
                        assert(shorter[i].1.contains(s.get(shorter[i].0)));
                    }
                }
            }
        }
    }
}

proof fn lemma_merged_distinct<K, V>(clause: Clause<K, V>)
    requires
        search::distinct(clause),
    ensures
        merged(clause) == clause,
    decreases clause.len(),
{
    if clause.len() > 0 {
        let shorter = clause.drop_last();
        let last = clause.last();
        assert forall|i: int, j: int|
            0 <= i < shorter.len() && 0 <= j < shorter.len() && i != j implies (
        #[trigger] shorter[i]).0 != (#[trigger] shorter[j]).0 by {
            assert(clause[i] == shorter[i] && clause[j] == shorter[j]);
        }
        lemma_merged_distinct(shorter);
        assert(!search::mentions(shorter, last.0)) by {
            if search::mentions(shorter, last.0) {
                let i = choose|i: int|
                    0 <= i < shorter.len() && (#[trigger] shorter[i]).0 == last.0;
                assert(clause[i].0 != clause[clause.len() - 1].0);
            }
        }
        assert(merged(clause) =~= clause);
    } else {
        assert(merged(clause) =~= clause);
    }
}

/// Merging what was merged changes nothing.
pub proof fn merging_twice_is_merging_once<K, V>(clause: Clause<K, V>)
    ensures
        merged(merged(clause)) == merged(clause),
{
    lemma_merged(clause);
    lemma_merged_distinct(merged(clause));
}

/// The clause over places, each with the states that its term stands for.
pub open spec fn placed<VS: VersionSet>(clause: Seq<(usize, Term<VS>)>) -> Clause<usize, VS::V> {
    Seq::new(clause.len(), |i: int| (clause[i].0, clause[i].1@))
}

/// The clause over packages that a clause over their places stands for.
spec fn renamed<K, V>(packages: Seq<K>, clause: Clause<usize, V>) -> Clause<K, V> {
    Seq::new(clause.len(), |i: int| (packages[clause[i].0 as int], clause[i].1))
}

/// It does not matter whether places are merged or packages.
proof fn lemma_merged_named<K, V>(packages: Seq<K>, clause: Clause<usize, V>)
    requires
        packages.no_duplicates(),
        forall|i: int| 0 <= i < clause.len() ==> (#[trigger] clause[i]).0 < packages.len(),
    ensures
        merged(renamed(packages, clause)) == renamed(packages, merged(clause)),
        forall|i: int|
            0 <= i < merged(clause).len() ==> (#[trigger] merged(clause)[i]).0 < packages.len(),
    decreases clause.len(),
{
    if clause.len() > 0 {
        let shorter = clause.drop_last();
        let before = merged(shorter);
        let last = clause.last();
        let id = last.0;
        assert(clause[clause.len() - 1].0 < packages.len());
        assert forall|i: int| 0 <= i < shorter.len() implies (#[trigger] shorter[i]).0
            < packages.len() by {
            assert(clause[i] == shorter[i]);
        }
        lemma_merged_named(packages, shorter);
        let whole = renamed(packages, clause);
        assert(whole.drop_last() =~= renamed(packages, shorter));
        let held = renamed(packages, before);
        assert(search::mentions(held, packages[id as int]) <==> search::mentions(before, id)) by {
            if search::mentions(before, id) {
                let i = choose|i: int| 0 <= i < before.len() && (#[trigger] before[i]).0 == id;
                assert(held[i].0 == packages[id as int]);
            }
            if search::mentions(held, packages[id as int]) {
                let i = choose|i: int|
                    0 <= i < held.len() && (#[trigger] held[i]).0 == packages[id as int];
                assert(before[i].0 < packages.len());
                assert(packages[before[i].0 as int] == packages[id as int]);
            }
        }
        assert forall|i: int| 0 <= i < merged(clause).len() implies (
        #[trigger] merged(clause)[i]).0 < packages.len() by {
            if i < before.len() {
                assert(before[i].0 < packages.len());
            }
        }
        assert(merged(whole) =~= renamed(packages, merged(clause))) by {
            assert(merged(whole).len() == merged(clause).len());
            assert forall|i: int| 0 <= i < merged(whole).len() implies #[trigger] merged(whole)[i]
                == renamed(packages, merged(clause))[i] by {
                if i < before.len() {
                    assert(before[i].0 < packages.len());
                    assert(packages[before[i].0 as int] == packages[id as int] <==> before[i].0
                        == id);
                }
            }
        }
    }
}

/// The terms with at most one per place, which holds where all terms for it hold.
fn normalize<VS: VersionSet>(clause: Vec<(usize, Term<VS>)>, n: usize) -> (r: Vec<
    (usize, Term<VS>),
>)
    requires
        in_range(clause@, n as int),
    ensures
        in_range(r@, n as int),
        forall|i: int, j: int|
            0 <= i < r@.len() && 0 <= j < r@.len() && i != j ==> (#[trigger] r@[i]).0 != (
            #[trigger] r@[j]).0,
        forall|id: int| #[trigger] is_about(r@, id) <==> is_about(clause@, id),
        forall|i: int, x: Option<VS::V>|
            0 <= i < r@.len() ==> (#[trigger] (#[trigger] r@[i]).1@.contains(x) <==> all_hold(
                clause@,
                clause@.len() as int,
                r@[i].0 as int,
                x,
            )),
        placed(r@) == merged(placed(clause@)),
{
    let ghost all = clause@;
    assert(placed(all).take(0) =~= Seq::empty());
    let mut result: Vec<(usize, Term<VS>)> = Vec::new();
    assert(placed(result@) =~= Seq::empty());
    let mut i: usize = 0;
    while i < clause.len()
        invariant
            placed(result@) == merged(placed(all).take(i as int)),
            all == clause@,
            in_range(all, n as int),
            i <= all.len(),
            in_range(result@, n as int),
            forall|a: int, b: int|
                0 <= a < result@.len() && 0 <= b < result@.len() && a != b ==> (
                #[trigger] result@[a]).0 != (#[trigger] result@[b]).0,
            forall|id: int| #[trigger]
                is_about(result@, id) <==> exists|j: int|
                    0 <= j < i && (#[trigger] all[j]).0 == id,
            forall|a: int, x: Option<VS::V>|
                0 <= a < result@.len() ==> (#[trigger] (#[trigger] result@[a]).1@.contains(x)
                    <==> all_hold(all, i as int, result@[a].0 as int, x)),
        decreases all.len() - i,
    {
        let ghost before = result@;
        let id = clause[i].0;
        assert(all[i as int].0 < n);
        let mut place: Option<usize> = None;
        let mut j: usize = 0;
        while j < result.len() && place.is_none()
            invariant
                result@ == before,
                j <= result@.len(),
                match place {
                    Some(p) => p < before.len() && before[p as int].0 == id,
                    None => forall|m: int| 0 <= m < j ==> (#[trigger] before[m]).0 != id,
                },
            decreases result@.len() - j,
        {
            if result[j].0 == id {
                place = Some(j);
            }
            j += 1;
        }
        match place {
            Some(p) => {
                let narrowed = result[p].1.intersection(&clause[i].1);
                result.set(p, (id, narrowed));
            },
            None => {
                result.push((id, clause[i].1.duplicate()));
            },
        }
        proof {
            let after = result@;
            let prefix = placed(all).take(i + 1);
            assert(prefix.drop_last() =~= placed(all).take(i as int));
            assert(prefix.last() == (id, all[i as int].1@));
            assert(search::mentions(placed(before), id) <==> place is Some) by {
                match place {
                    Some(p) => {
                        assert(placed(before)[p as int].0 == id);
                    },
                    None => {
                        if search::mentions(placed(before), id) {
                            let m = choose|m: int|
                                0 <= m < placed(before).len() && (#[trigger] placed(before)[m]).0
                                    == id;
                            assert(before[m].0 == id);
                        }
                    },
                }
            }
            assert(placed(after) =~= merged(prefix)) by {
                assert forall|m: int| 0 <= m < placed(after).len() implies #[trigger] placed(
                    after,
                )[m] == merged(prefix)[m] by {
                    if m < before.len() {
                        assert(placed(before)[m] == (before[m].0, before[m].1@));
                        if place is Some && m != place->0 {
                            assert(before[place->0 as int].0 == id);
                            assert(before[m].0 != id);
                        }
                    }
                }
            }
            assert forall|q: int| #[trigger] is_about(after, q) <==> exists|j: int|
                0 <= j < i + 1 && (#[trigger] all[j]).0 == q by {
                assert(is_about(before, q) <==> exists|j: int|
                    0 <= j < i && (#[trigger] all[j]).0 == q);
                if is_about(before, q) {
                    let m = choose|m: int| 0 <= m < before.len() && (#[trigger] before[m]).0 == q;
                    assert(after[m].0 == q);
                    let j = choose|j: int| 0 <= j < i && (#[trigger] all[j]).0 == q;
                    assert(all[j].0 == q);
                }
                if q == id {
                    assert(all[i as int].0 == q);
                    match place {
                        Some(p) => {
                            assert(after[p as int].0 == q);
                        },
                        None => {
                            assert(after[before.len() as int].0 == q);
                        },
                    }
                }
                if is_about(after, q) && q != id {
                    let m = choose|m: int| 0 <= m < after.len() && (#[trigger] after[m]).0 == q;
                    assert(before[m].0 == q);
                }
                if exists|j: int| 0 <= j < i + 1 && (#[trigger] all[j]).0 == q {
                    let j = choose|j: int| 0 <= j < i + 1 && (#[trigger] all[j]).0 == q;
                    if j < i {
                        assert(all[j].0 == q);
                    }
                }
            }
            assert forall|a: int, x: Option<VS::V>| 0 <= a < after.len() implies (#[trigger] (
            #[trigger] after[a]).1@.contains(x) <==> all_hold(
                all,
                i + 1,
                after[a].0 as int,
                x,
            )) by {
                let q = after[a].0 as int;
                lemma_all_hold(all, i as int, q, x);
                if a < before.len() {
                    assert(before[a].1@.contains(x) <==> all_hold(
                        all,
                        i as int,
                        before[a].0 as int,
                        x,
                    ));
                    if place is None || place->0 != a {
                        assert(after[a] == before[a]);
                        match place {
                            Some(p) => {
                                assert(before[p as int].0 == id);
                            },
                            None => {},
                        }
                        assert(q != id);
                    }
                } else {
                    assert forall|j: int| 0 <= j < i && (#[trigger] all[j]).0 == q implies all[j].1@.contains(
                        x,
                    ) by {
                        assert(is_about(before, q));
                        let m = choose|m: int|
                            0 <= m < before.len() && (#[trigger] before[m]).0 == q;
                        assert(before[m].0 != id);
                    }
                }
            }
            assert forall|a: int, b: int|
                0 <= a < after.len() && 0 <= b < after.len() && a != b implies (
            #[trigger] after[a]).0 != (#[trigger] after[b]).0 by {
                if a < before.len() {
                    assert(after[a].0 == before[a].0);
                }
                if b < before.len() {
                    assert(after[b].0 == before[b].0);
                }
            }
        }
        i += 1;
    }
    proof {
        assert(placed(all).take(i as int) =~= placed(all));
        assert forall|id: int| #[trigger] is_about(result@, id) <==> is_about(all, id) by {
            assert(is_about(result@, id) <==> exists|j: int|
                0 <= j < i && (#[trigger] all[j]).0 == id);
        }
    }
    result
}

/// All of the first `n` terms that are about the place hold of the state.
pub open spec fn all_hold<VS: VersionSet>(
    clause: Seq<(usize, Term<VS>)>,
    n: int,
    id: int,
    x: Option<VS::V>,
) -> bool {
    forall|j: int| 0 <= j < n && (#[trigger] clause[j]).0 == id ==> clause[j].1@.contains(x)
}

proof fn lemma_all_hold<VS: VersionSet>(
    clause: Seq<(usize, Term<VS>)>,
    n: int,
    id: int,
    x: Option<VS::V>,
)
    requires
        0 <= n < clause.len(),
    ensures
        all_hold(clause, n + 1, id, x) <==> all_hold(clause, n, id, x) && (clause[n].0 == id
            ==> clause[n].1@.contains(x)),
{
    if all_hold(clause, n + 1, id, x) {
        assert(clause[n].0 == id ==> clause[n].1@.contains(x));
    }
}

/// Merging the terms for a place does not change what violates the clause.
proof fn lemma_normalized<K, VS: VersionSet>(
    packages: Seq<K>,
    clause: Seq<(usize, Term<VS>)>,
    merged: Seq<(usize, Term<VS>)>,
    s: Map<K, VS::V>,
)
    requires
        forall|id: int| #[trigger] is_about(merged, id) <==> is_about(clause, id),
        forall|i: int, x: Option<VS::V>|
            0 <= i < merged.len() ==> (#[trigger] (#[trigger] merged[i]).1@.contains(x)
                <==> all_hold(clause, clause.len() as int, merged[i].0 as int, x)),
    ensures
        search::violates(named(packages, merged), s) <==> search::violates(
            named(packages, clause),
            s,
        ),
{
    let a = named(packages, clause);
    let b = named(packages, merged);
    if search::violates(a, s) {
        assert forall|i: int| 0 <= i < b.len() implies (#[trigger] b[i]).1.contains(
            s.get(b[i].0),
        ) by {
            let id = merged[i].0 as int;
            let x = s.get(packages[id]);
            assert(all_hold(clause, clause.len() as int, id, x)) by {
                assert forall|j: int|
                    0 <= j < clause.len() && (#[trigger] clause[j]).0 == id implies clause[j].1@.contains(
                    x,
                ) by {
                    assert(a[j].1.contains(s.get(a[j].0)));
                }
            }
            assert(merged[i].1@.contains(x));
        }
    }
    if search::violates(b, s) {
        assert forall|j: int| 0 <= j < a.len() implies (#[trigger] a[j]).1.contains(
            s.get(a[j].0),
        ) by {
            let id = clause[j].0 as int;
            let x = s.get(packages[id]);
            assert(is_about(clause, id));
            assert(is_about(merged, id));
            let i = choose|i: int| 0 <= i < merged.len() && (#[trigger] merged[i]).0 == id;
            assert(b[i].1.contains(s.get(b[i].0)));
            assert(merged[i].1@.contains(x));
            assert(clause[j].1@.contains(x));
        }
    }
}

/// Merging the terms for a place is merging the parts for its package.
proof fn lemma_normalized_named<K, VS: VersionSet>(
    packages: Seq<K>,
    clause: Seq<(usize, Term<VS>)>,
    result: Seq<(usize, Term<VS>)>,
)
    requires
        packages.no_duplicates(),
        in_range(clause, packages.len() as int),
        placed(result) == merged(placed(clause)),
    ensures
        named(packages, result) == merged(named(packages, clause)),
{
    assert(named(packages, result) =~= renamed(packages, placed(result)));
    assert(named(packages, clause) =~= renamed(packages, placed(clause)));
    assert forall|i: int| 0 <= i < placed(clause).len() implies (#[trigger] placed(clause)[i]).0
        < packages.len() by {
        assert(clause[i].0 < packages.len());
    }
    lemma_merged_named(packages, placed(clause));
}

/// More packages leave a clause about the first ones as it is.
proof fn lemma_named_grow<K, VS: VersionSet>(
    packages: Seq<K>,
    more: Seq<K>,
    clause: Seq<(usize, Term<VS>)>,
)
    requires
        packages.is_prefix_of(more),
        in_range(clause, packages.len() as int),
    ensures
        named(packages, clause) == named(more, clause),
{
    assert forall|i: int| 0 <= i < clause.len() implies named(packages, clause)[i] == named(
        more,
        clause,
    )[i] by {
        assert(packages[clause[i].0 as int] == more[clause[i].0 as int]);
    }
    assert(named(packages, clause) =~= named(more, clause));
}

/// The rule is violated only where the package is selected at a version that does not fit.
pub open spec fn faithful_to<DP: DependencyProvider>(
    dp: DP,
    k: Key<DP>,
    rule: Clause<Key<DP>, VersionOf<DP>>,
) -> bool {
    forall|s: Selection<DP>| #[trigger]
        search::violates(rule, s) ==> s.dom().contains(k) && !problem::fits(dp, s, k)
}

/// The clause is one that the provider states for the package version: that it cannot be used, or
/// that one of its requirements must be met, or one of its incompatibilities.
pub open spec fn is_stated<DP: DependencyProvider>(
    dp: DP,
    k: Key<DP>,
    v: VersionOf<DP>,
    clause: Clause<Key<DP>, VersionOf<DP>>,
) -> bool {
    match dp.requirements(k, v) {
        None => clause == problem::owner_clause(k, v),
        Some(requirements) => {
            ||| exists|i: int|
                0 <= i < requirements.len() && clause == problem::requirement_clause(
                    k,
                    v,
                    #[trigger] requirements[i],
                )
            ||| exists|i: int|
                0 <= i < dp.conflicts(k, v).len() && clause == problem::conflict_clause(
                    k,
                    v,
                    #[trigger] dp.conflicts(k, v)[i],
                )
        },
    }
}

/// The rule is what the provider states for the package version, with one part per package.
#[verifier::opaque]
pub open spec fn is_rule_of<DP: DependencyProvider>(
    dp: DP,
    k: Key<DP>,
    v: VersionOf<DP>,
    rule: Clause<Key<DP>, VersionOf<DP>>,
) -> bool {
    exists|clause: Clause<Key<DP>, VersionOf<DP>>| #[trigger]
        is_stated(dp, k, v, clause) && rule == merged(clause)
}

/// The rule is what the provider states for a version that it offers of one of the packages.
pub open spec fn faithful<DP: DependencyProvider>(
    dp: DP,
    packages: Seq<Key<DP>>,
    rule: Clause<Key<DP>, VersionOf<DP>>,
) -> bool {
    exists|k: Key<DP>, v: VersionOf<DP>|
        packages.contains(k) && dp.offers(k, v) && #[trigger] is_rule_of(dp, k, v, rule)
}

/// A faithful rule has one part per package, and is violated only where one of the packages is
/// selected at a version that does not fit.
pub proof fn lemma_faithful<DP: DependencyProvider>(
    dp: DP,
    packages: Seq<Key<DP>>,
    rule: Clause<Key<DP>, VersionOf<DP>>,
) -> (k: Key<DP>)
    requires
        faithful(dp, packages, rule),
    ensures
        packages.contains(k),
        faithful_to(dp, k, rule),
        search::distinct(rule),
{
    reveal(is_rule_of);
    let (k, v) = choose|k: Key<DP>, v: VersionOf<DP>|
        packages.contains(k) && dp.offers(k, v) && #[trigger] is_rule_of(dp, k, v, rule);
    let clause = choose|clause: Clause<Key<DP>, VersionOf<DP>>| #[trigger]
        is_stated(dp, k, v, clause) && rule == merged(clause);
    lemma_faithful_clauses(dp, k, v);
    lemma_merged(clause);
    assert(faithful_to(dp, k, clause)) by {
        if let Some(requirements) = dp.requirements(k, v) {
            if exists|i: int|
                0 <= i < requirements.len() && clause == problem::requirement_clause(
                    k,
                    v,
                    #[trigger] requirements[i],
                ) {
                let i = choose|i: int|
                    0 <= i < requirements.len() && clause == problem::requirement_clause(
                        k,
                        v,
                        #[trigger] requirements[i],
                    );
                assert(faithful_to(dp, k, problem::requirement_clause(k, v, requirements[i])));
            } else {
                let i = choose|i: int|
                    0 <= i < dp.conflicts(k, v).len() && clause == problem::conflict_clause(
                        k,
                        v,
                        #[trigger] dp.conflicts(k, v)[i],
                    );
                assert(faithful_to(
                    dp,
                    k,
                    problem::conflict_clause(k, v, dp.conflicts(k, v)[i]),
                ));
            }
        }
    }
    assert forall|s: Selection<DP>| #[trigger] search::violates(rule, s) implies s.dom().contains(
        k,
    ) && !problem::fits(dp, s, k) by {
        assert(search::violates(clause, s));
    }
    k
}

/// Whatever the provider mentions for the package version is among the packages.
pub open spec fn closed_at<DP: DependencyProvider>(
    dp: DP,
    packages: Seq<Key<DP>>,
    k: Key<DP>,
    v: VersionOf<DP>,
) -> bool {
    match dp.requirements(k, v) {
        None => true,
        Some(requirements) => {
            &&& forall|i: int|
                0 <= i < requirements.len() ==> packages.contains((#[trigger] requirements[i]).0)
            &&& forall|i: int, j: int|
                0 <= i < dp.conflicts(k, v).len() && 0 <= j < dp.conflicts(k, v)[i].len()
                    ==> packages.contains((#[trigger] dp.conflicts(k, v)[i][j]).0)
        },
    }
}

/// What the provider says about the package version mentions the other package.
pub open spec fn mentioned<DP: DependencyProvider>(
    dp: DP,
    k: Key<DP>,
    v: VersionOf<DP>,
    other: Key<DP>,
) -> bool {
    match dp.requirements(k, v) {
        None => false,
        Some(requirements) => {
            ||| exists|i: int| 0 <= i < requirements.len() && (#[trigger] requirements[i]).0 == other
            ||| exists|i: int, j: int|
                0 <= i < dp.conflicts(k, v).len() && 0 <= j < dp.conflicts(k, v)[i].len() && (
                #[trigger] dp.conflicts(k, v)[i][j]).0 == other
        },
    }
}

proof fn lemma_mentioned<DP: DependencyProvider>(
    dp: DP,
    k: Key<DP>,
    v: VersionOf<DP>,
    i: int,
)
    requires
        dp.requirements(k, v) is Some,
        0 <= i < dp.requirements(k, v)->0.len(),
    ensures
        mentioned(dp, k, v, dp.requirements(k, v)->0[i].0),
{
    let requirements = dp.requirements(k, v)->0;
    let other = requirements[i].0;
    assert(exists|j: int| 0 <= j < requirements.len() && (#[trigger] requirements[j]).0 == other);
}

/// The packages that were added are mentioned for the package version.
spec fn adds_mentioned<DP: DependencyProvider>(
    dp: DP,
    k: Key<DP>,
    v: VersionOf<DP>,
    packages: Seq<Key<DP>>,
    more: Seq<Key<DP>>,
) -> bool {
    forall|i: int| packages.len() <= i < more.len() ==> mentioned(dp, k, v, #[trigger] more[i])
}

/// The package is one of those that were asked for, or an earlier one mentions it.
pub open spec fn is_called_for<DP: DependencyProvider>(
    dp: DP,
    asked: Seq<Key<DP>>,
    packages: Seq<Key<DP>>,
    i: int,
) -> bool {
    ||| asked.contains(packages[i])
    ||| exists|j: int, v: VersionOf<DP>|
        0 <= j < i && #[trigger] dp.offers(packages[j], v) && mentioned(
            dp,
            packages[j],
            v,
            packages[i],
        )
}

/// A model in the making.
struct Loader<P: Package, VS: VersionSet> {
    domains: Vec<Domain<P, VS::V>>,
    clauses: Vec<Vec<(usize, Term<VS>)>>,
}

impl<P: Package, VS: VersionSet> Loader<P, VS> {
    spec fn packages(self) -> Seq<P::V> {
        names(self.domains@)
    }

    spec fn rules(self) -> Seq<Clause<P::V, VS::V>> {
        Seq::new(self.clauses@.len(), |i: int| named(self.packages(), self.clauses@[i]@))
    }

    spec fn ok(self) -> bool {
        &&& self.packages().no_duplicates()
        &&& forall|c: int|
            0 <= c < self.clauses@.len() ==> in_range(
                (#[trigger] self.clauses@[c])@,
                self.domains@.len() as int,
            )
    }

    /// New packages, which are absent so far, and new rules were added; the rest is as it was.
    spec fn grows(self, earlier: Self) -> bool {
        &&& earlier.packages().is_prefix_of(self.packages())
        &&& earlier.rules().is_prefix_of(self.rules())
        &&& forall|i: int|
            0 <= i < earlier.domains@.len() ==> (#[trigger] self.domains@[i]).values
                == earlier.domains@[i].values
        &&& forall|i: int|
            earlier.domains@.len() <= i < self.domains@.len() ==> (
            #[trigger] self.domains@[i]).values@ == seq![None::<VS::V>]
    }

    proof fn lemma_grows(self, middle: Self, earlier: Self)
        requires
            self.grows(middle),
            middle.grows(earlier),
        ensures
            self.grows(earlier),
    {
        run::lemma_prefix_chain(earlier.packages(), middle.packages(), self.packages());
        run::lemma_prefix_chain(earlier.rules(), middle.rules(), self.rules());
        assert(earlier.packages().len() <= middle.packages().len());
        assert forall|i: int| 0 <= i < earlier.domains@.len() implies (
        #[trigger] self.domains@[i]).values == earlier.domains@[i].values by {
            assert(middle.domains@[i].values == earlier.domains@[i].values);
        }
        assert forall|i: int| earlier.domains@.len() <= i < self.domains@.len() implies (
        #[trigger] self.domains@[i]).values@ == seq![None::<VS::V>] by {
            if i < middle.domains@.len() {
                assert(self.domains@[i].values == middle.domains@[i].values);
            }
        }
    }

    proof fn lemma_grows_refl(self)
        ensures
            self.grows(self),
    {
        assert(self.packages().is_prefix_of(self.packages()));
        assert(self.rules().is_prefix_of(self.rules()));
    }

    /// The place of the package, which gets one where it has none.
    fn intern(&mut self, package: &P) -> (r: usize)
        requires
            old(self).ok(),
        ensures
            final(self).ok(),
            final(self).grows(*old(self)),
            final(self).clauses == old(self).clauses,
            r < final(self).domains@.len(),
            final(self).packages()[r as int] == package@,
            final(self).packages() == old(self).packages() || final(self).packages()
                == old(self).packages().push(package@),
    {
        let ghost before = *self;
        let mut i: usize = 0;
        while i < self.domains.len()
            invariant
                *self == before,
                before.ok(),
                before == *old(self),
                i <= self.domains@.len(),
                forall|j: int| 0 <= j < i ==> (#[trigger] self.domains@[j]).package@ != package@,
            decreases self.domains@.len() - i,
        {
            if self.domains[i].package.same(package) {
                proof {
                    self.lemma_grows_refl();
                }
                return i;
            }
            i += 1;
        }
        let mut values: Vec<Option<VS::V>> = Vec::new();
        values.push(None);
        self.domains.push(Domain { package: package.duplicate(), values });
        proof {
            let shorter = before.packages();
            let longer = self.packages();
            assert(longer =~= shorter.push(package@));
            assert(shorter.is_prefix_of(longer));
            assert(longer.no_duplicates()) by {
                assert forall|a: int, b: int|
                    0 <= a < longer.len() && 0 <= b < longer.len() && a != b implies longer[a]
                    != longer[b] by {
                    if a < shorter.len() {
                        assert(longer[a] == before.domains@[a].package@);
                    }
                    if b < shorter.len() {
                        assert(longer[b] == before.domains@[b].package@);
                    }
                }
            }
            assert forall|c: int| 0 <= c < self.clauses@.len() implies in_range(
                (#[trigger] self.clauses@[c])@,
                self.domains@.len() as int,
            ) by {
                let clause = before.clauses@[c]@;
                assert(in_range(clause, before.domains@.len() as int));
                assert forall|i: int| 0 <= i < clause.len() implies (#[trigger] clause[i]).0
                    < self.domains@.len() by {}
            }
            assert(before.rules() =~= self.rules()) by {
                assert forall|c: int| 0 <= c < before.rules().len() implies before.rules()[c]
                    == self.rules()[c] by {
                    lemma_named_grow(shorter, longer, self.clauses@[c]@);
                }
            }
            assert(before.rules().is_prefix_of(self.rules()));
            assert(values@ =~= seq![None::<VS::V>]);
        }
        i
    }

    /// Add a rule.
    fn add(&mut self, clause: Vec<(usize, Term<VS>)>)
        requires
            old(self).ok(),
            in_range(clause@, old(self).domains@.len() as int),
        ensures
            final(self).ok(),
            final(self).grows(*old(self)),
            final(self).domains == old(self).domains,
            final(self).rules() == old(self).rules().push(
                merged(named(old(self).packages(), clause@)),
            ),
            forall|s: Map<P::V, VS::V>| #[trigger]
                search::violates(final(self).rules().last(), s) <==> search::violates(
                    named(old(self).packages(), clause@),
                    s,
                ),
    {
        let ghost before = *self;
        let ghost given = clause@;
        let merged = normalize(clause, self.domains.len());
        let ghost kept = merged@;
        self.clauses.push(merged);
        proof {
            assert(self.rules() =~= before.rules().push(named(before.packages(), kept)));
            lemma_normalized_named(before.packages(), given, kept);
            assert(before.packages().is_prefix_of(self.packages()));
            assert(before.rules().is_prefix_of(self.rules()));
            assert forall|s: Map<P::V, VS::V>| #[trigger]
                search::violates(self.rules().last(), s) <==> search::violates(
                named(before.packages(), given),
                s,
            ) by {
                lemma_normalized(before.packages(), given, kept, s);
            }
            assert forall|c: int| 0 <= c < self.clauses@.len() implies in_range(
                (#[trigger] self.clauses@[c])@,
                self.domains@.len() as int,
            ) by {
                if c < before.clauses@.len() {
                    assert(self.clauses@[c] == before.clauses@[c]);
                }
            }
        }
    }
}

/// All rules are faithful.
spec fn all_faithful<DP: DependencyProvider>(dp: DP, loader: Loader<DP::P, DP::VS>) -> bool {
    forall|c: int|
        0 <= c < loader.rules().len() ==> faithful(
            dp,
            loader.packages(),
            #[trigger] loader.rules()[c],
        )
}

proof fn lemma_faithful_grow<DP: DependencyProvider>(
    dp: DP,
    before: Loader<DP::P, DP::VS>,
    after: Loader<DP::P, DP::VS>,
)
    requires
        all_faithful(dp, before),
        after.grows(before),
        after.rules().len() == before.rules().len() || (after.rules().len()
            == before.rules().len() + 1 && faithful(dp, after.packages(), after.rules().last())),
    ensures
        all_faithful(dp, after),
{
    assert forall|c: int| 0 <= c < after.rules().len() implies faithful(
        dp,
        after.packages(),
        #[trigger] after.rules()[c],
    ) by {
        if c < before.rules().len() {
            assert(after.rules()[c] == before.rules()[c]);
            let (k, v) = choose|k: Key<DP>, v: VersionOf<DP>|
                before.packages().contains(k) && dp.offers(k, v) && #[trigger] is_rule_of(
                    dp,
                    k,
                    v,
                    before.rules()[c],
                );
            lemma_contains_grow(before.packages(), after.packages(), k);
            assert(is_rule_of(dp, k, v, after.rules()[c]));
        }
    }
}

proof fn lemma_contains_grow<T>(shorter: Seq<T>, longer: Seq<T>, x: T)
    requires
        shorter.is_prefix_of(longer),
        shorter.contains(x),
    ensures
        longer.contains(x),
{
    let i = choose|i: int| 0 <= i < shorter.len() && shorter[i] == x;
    assert(longer[i] == x);
}

/// What is stated for an offered version is faithful.
proof fn lemma_faithful_last<DP: DependencyProvider>(
    dp: DP,
    packages: Seq<Key<DP>>,
    clause: Clause<Key<DP>, VersionOf<DP>>,
    k: Key<DP>,
    v: VersionOf<DP>,
)
    requires
        packages.contains(k),
        dp.offers(k, v),
        is_stated(dp, k, v, clause),
    ensures
        faithful(dp, packages, merged(clause)),
{
    reveal(is_rule_of);
    assert(is_rule_of(dp, k, v, merged(clause)));
}

/// A requirement is stated.
proof fn lemma_requirement_stated<DP: DependencyProvider>(
    dp: DP,
    k: Key<DP>,
    v: VersionOf<DP>,
    i: int,
)
    requires
        dp.requirements(k, v) is Some,
        0 <= i < dp.requirements(k, v)->0.len(),
    ensures
        is_stated(dp, k, v, problem::requirement_clause(k, v, dp.requirements(k, v)->0[i])),
{
    let requirements = dp.requirements(k, v)->0;
    let clause = problem::requirement_clause(k, v, requirements[i]);
    assert(exists|j: int|
        0 <= j < requirements.len() && clause == problem::requirement_clause(
            k,
            v,
            #[trigger] requirements[j],
        ));
}

/// An incompatibility is stated.
proof fn lemma_conflict_stated<DP: DependencyProvider>(
    dp: DP,
    k: Key<DP>,
    v: VersionOf<DP>,
    i: int,
)
    requires
        dp.requirements(k, v) is Some,
        0 <= i < dp.conflicts(k, v).len(),
    ensures
        is_stated(dp, k, v, problem::conflict_clause(k, v, dp.conflicts(k, v)[i])),
{
    let clause = problem::conflict_clause(k, v, dp.conflicts(k, v)[i]);
    assert(exists|j: int|
        0 <= j < dp.conflicts(k, v).len() && clause == problem::conflict_clause(
            k,
            v,
            #[trigger] dp.conflicts(k, v)[j],
        ));
}

/// What a package version says is violated only where it is selected and does not fit.
proof fn lemma_faithful_clauses<DP: DependencyProvider>(dp: DP, k: Key<DP>, v: VersionOf<DP>)
    ensures
        dp.requirements(k, v) is None ==> faithful_to(dp, k, problem::owner_clause(k, v)),
        dp.requirements(k, v) matches Some(requirements) ==> forall|i: int|
            0 <= i < requirements.len() ==> faithful_to(
                dp,
                k,
                problem::requirement_clause(k, v, #[trigger] requirements[i]),
            ),
        forall|i: int|
            0 <= i < dp.conflicts(k, v).len() ==> faithful_to(
                dp,
                k,
                problem::conflict_clause(k, v, #[trigger] dp.conflicts(k, v)[i]),
            ),
{
    if dp.requirements(k, v) is None {
        let clause = problem::owner_clause(k, v);
        assert forall|s: Selection<DP>| #[trigger] search::violates(
            clause,
            s,
        ) implies s.dom().contains(k) && !problem::fits(dp, s, k) by {
            assert(clause[0].1.contains(s.get(clause[0].0)));
        }
    }
    if let Some(requirements) = dp.requirements(k, v) {
        assert forall|i: int| 0 <= i < requirements.len() implies faithful_to(
            dp,
            k,
            problem::requirement_clause(k, v, #[trigger] requirements[i]),
        ) by {
            let clause = problem::requirement_clause(k, v, requirements[i]);
            assert forall|s: Selection<DP>| #[trigger] search::violates(
                clause,
                s,
            ) implies s.dom().contains(k) && !problem::fits(dp, s, k) by {
                assert(clause[0].1.contains(s.get(clause[0].0)));
                assert(clause[1].1.contains(s.get(clause[1].0)));
                assert(!problem::meets(s, requirements[i]));
            }
        }
    }
    assert forall|i: int| 0 <= i < dp.conflicts(k, v).len() implies faithful_to(
        dp,
        k,
        problem::conflict_clause(k, v, #[trigger] dp.conflicts(k, v)[i]),
    ) by {
        let conflict = dp.conflicts(k, v)[i];
        let clause = problem::conflict_clause(k, v, conflict);
        assert forall|s: Selection<DP>| #[trigger] search::violates(
            clause,
            s,
        ) implies s.dom().contains(k) && !problem::fits(dp, s, k) by {
            assert(clause[0].1.contains(s.get(clause[0].0)));
            assert(search::violates(conflict, s)) by {
                assert forall|j: int| 0 <= j < conflict.len() implies (
                #[trigger] conflict[j]).1.contains(s.get(conflict[j].0)) by {
                    assert(clause[j + 1] == conflict[j]);
                }
            }
            assert(s[k] == v);
        }
    }
}

/// The two terms that the package version is selected and its requirement is not met.
proof fn lemma_requirement_named<K, VS: VersionSet>(
    packages: Seq<K>,
    clause: Seq<(usize, Term<VS>)>,
    v: VS::V,
    required: Set<VS::V>,
)
    requires
        clause.len() == 2,
        clause[0].1@ == term::only(v),
        clause[1].1@ == term::selected_in(required).complement(),
    ensures
        named(packages, clause) == problem::requirement_clause(
            packages[clause[0].0 as int],
            v,
            (packages[clause[1].0 as int], required),
        ),
{
    assert(named(packages, clause) =~= problem::requirement_clause(
        packages[clause[0].0 as int],
        v,
        (packages[clause[1].0 as int], required),
    ));
}

impl<P: Package, VS: VersionSet> Loader<P, VS> {
    /// Add all that the provider says about the package version.
    fn load_version<DP: DependencyProvider<P = P, VS = VS>>(
        &mut self,
        provider: &DP,
        index: usize,
        package: &P,
        candidate: &VS::V,
    ) -> (r: Result<(), PubGrubError<DP>>)
        requires
            old(self).ok(),
            index < old(self).domains@.len(),
            old(self).packages()[index as int] == package@,
            all_faithful(*provider, *old(self)),
            provider.offers(package@, *candidate),
        ensures
            match r {
                Ok(_) => {
                    &&& final(self).ok()
                    &&& final(self).grows(*old(self))
                    &&& all_faithful(*provider, *final(self))
                    &&& problem::explained(
                        *provider,
                        final(self).rules(),
                        package@,
                        *candidate,
                    )
                    &&& closed_at(*provider, final(self).packages(), package@, *candidate)
                    &&& adds_mentioned(
                        *provider,
                        package@,
                        *candidate,
                        old(self).packages(),
                        final(self).packages(),
                    )
                },
                Err(error) => error.raised_by(*provider) && provider.may_fail(),
            },
    {
        let ghost dp = *provider;
        let ghost k = package@;
        let ghost v = *candidate;
        let ghost start = *self;
        proof {
            self.lemma_grows_refl();
        }
        let dependencies = match provider.get_dependencies(package, candidate) {
            Ok(dependencies) => dependencies,
            Err(source) => {
                return Err(
                    PubGrubError::ErrorRetrievingDependencies {
                        package: package.duplicate(),
                        version: candidate.duplicate(),
                        source,
                    },
                );
            },
        };
        let constraints = match dependencies {
            Dependencies::Unavailable(_) => {
                let mut clause: Vec<(usize, Term<VS>)> = Vec::new();
                clause.push((index, Term::Positive(VS::singleton(candidate.duplicate()))));
                let ghost given = named(self.packages(), clause@);
                self.add(clause);
                proof {
                    let owner = problem::owner_clause(k, v);
                    assert(given =~= owner);
                    assert(self.packages()[index as int] == k);
                    lemma_faithful_last(dp, self.packages(), owner, k, v);
                    lemma_faithful_grow(dp, start, *self);
                    let last = self.rules().len() - 1;
                    assert(problem::covered_by(owner, self.rules()[last]));
                }
                return Ok(());
            },
            Dependencies::Available(constraints) => constraints,
        };
        let incompatibilities = match provider.get_incompatibilities(package, candidate) {
            Ok(incompatibilities) => incompatibilities,
            Err(source) => {
                return Err(
                    PubGrubError::ErrorRetrievingDependencies {
                        package: package.duplicate(),
                        version: candidate.duplicate(),
                        source,
                    },
                );
            },
        };
        proof {
            provider.declarations_are_conflicts(package, candidate, incompatibilities);
        }
        let list = constraints.iter();
        let ghost requirements = provider::requirements_of(list@);
        let mut i: usize = 0;
        while i < list.len()
            invariant
                dp == *provider,
                k == package@,
                v == *candidate,
                requirements == provider::requirements_of(list@),
                dp.requirements(k, v) == Some(requirements),
                dp.offers(k, v),
                self.ok(),
                self.grows(start),
                adds_mentioned(dp, k, v, start.packages(), self.packages()),
                all_faithful(dp, *self),
                index < start.domains@.len(),
                start.packages()[index as int] == k,
                i <= list@.len(),
                forall|j: int|
                    0 <= j < i ==> problem::covers(
                        self.rules(),
                        problem::requirement_clause(k, v, #[trigger] requirements[j]),
                    ) && self.packages().contains(requirements[j].0),
            decreases list@.len() - i,
        {
            let ghost before = *self;
            let id = self.intern(&list[i].0);
            let ghost interned = *self;
            proof {
                lemma_mentioned(dp, k, v, i as int);
                assert(adds_mentioned(dp, k, v, start.packages(), interned.packages()));
                lemma_faithful_grow(dp, before, interned);
                interned.lemma_grows(before, start);
                assert(interned.packages()[index as int] == k);
            }
            let mut clause: Vec<(usize, Term<VS>)> = Vec::new();
            clause.push((index, Term::Positive(VS::singleton(candidate.duplicate()))));
            clause.push((id, Term::Negative(list[i].1.duplicate())));
            let ghost given = named(self.packages(), clause@);
            proof {
                lemma_requirement_named(self.packages(), clause@, v, requirements[i as int].1);
                assert(start.packages().len() <= self.packages().len());
            }
            self.add(clause);
            proof {
                assert(given == problem::requirement_clause(k, v, requirements[i as int]));
                lemma_requirement_stated(dp, k, v, i as int);
                lemma_faithful_last(dp, self.packages(), given, k, v);
                lemma_faithful_grow(dp, interned, *self);
                self.lemma_grows(interned, start);
                self.lemma_grows(interned, before);
                let last = self.rules().len() - 1;
                assert(self.rules()[last] == self.rules().last());
                assert(problem::covered_by(given, self.rules()[last]));
                assert forall|j: int| 0 <= j < i + 1 implies problem::covers(
                    self.rules(),
                    problem::requirement_clause(k, v, #[trigger] requirements[j]),
                ) && self.packages().contains(requirements[j].0) by {
                    if j < i {
                        problem::lemma_covers_grow(
                            before.rules(),
                            self.rules(),
                            problem::requirement_clause(k, v, requirements[j]),
                        );
                        lemma_contains_grow(
                            before.packages(),
                            self.packages(),
                            requirements[j].0,
                        );
                    } else {
                        assert(self.packages()[id as int] == requirements[j].0);
                    }
                }
            }
            i += 1;
        }
        let ghost conflicts = dp.conflicts(k, v);
        let mut c: usize = 0;
        while c < incompatibilities.len()
            invariant
                dp == *provider,
                k == package@,
                v == *candidate,
                conflicts == dp.conflicts(k, v),
                conflicts == provider::clauses(incompatibilities@),
                dp.offers(k, v),
                self.ok(),
                self.grows(start),
                dp.requirements(k, v) is Some,
                adds_mentioned(dp, k, v, start.packages(), self.packages()),
                all_faithful(dp, *self),
                index < start.domains@.len(),
                start.packages()[index as int] == k,
                c <= incompatibilities@.len(),
                forall|j: int|
                    0 <= j < requirements.len() ==> problem::covers(
                        self.rules(),
                        problem::requirement_clause(k, v, #[trigger] requirements[j]),
                    ) && self.packages().contains(requirements[j].0),
                forall|j: int|
                    0 <= j < c ==> problem::covers(
                        self.rules(),
                        problem::conflict_clause(k, v, #[trigger] conflicts[j]),
                    ),
                forall|j: int, m: int|
                    0 <= j < c && 0 <= m < conflicts[j].len() ==> self.packages().contains(
                        (#[trigger] conflicts[j][m]).0,
                    ),
            decreases incompatibilities@.len() - c,
        {
            let ghost before = *self;
            let ghost conflict = conflicts[c as int];
            let terms = &incompatibilities[c].terms;
            assert(conflict == provider::clause_of(terms@));
            let ghost full = problem::conflict_clause(k, v, conflict);
            let mut clause: Vec<(usize, Term<VS>)> = Vec::new();
            clause.push((index, Term::Positive(VS::singleton(candidate.duplicate()))));
            proof {
                self.lemma_grows_refl();
                assert(self.packages()[index as int] == k);
                assert(named(self.packages(), clause@) =~= full.take(1));
                assert(start.packages().len() <= self.packages().len());
            }
            let mut m: usize = 0;
            while m < terms.len()
                invariant
                    conflict == provider::clause_of(terms@),
                    full == problem::conflict_clause(k, v, conflict),
                    c < conflicts.len(),
                    conflicts == dp.conflicts(k, v),
                    conflict == conflicts[c as int],
                    dp.requirements(k, v) is Some,
                    adds_mentioned(dp, k, v, start.packages(), self.packages()),
                    self.ok(),
                    self.grows(before),
                    self.clauses == before.clauses,
                    all_faithful(dp, *self),
                    m <= terms@.len(),
                    in_range(clause@, self.domains@.len() as int),
                    named(self.packages(), clause@) == full.take(m + 1),
                    forall|x: int|
                        0 <= x < m ==> self.packages().contains((#[trigger] conflict[x]).0),
                decreases terms@.len() - m,
            {
                let ghost middle = *self;
                let ghost prefix = clause@;
                let (id, term) = match &terms[m] {
                    IncompatibilityConstraintTerm::Positive(p, set) => (
                        self.intern(p),
                        Term::Positive(set.duplicate()),
                    ),
                    IncompatibilityConstraintTerm::Negative(p, set) => (
                        self.intern(p),
                        Term::Negative(set.duplicate()),
                    ),
                };
                clause.push((id, term));
                proof {
                    assert(dp.conflicts(k, v)[c as int][m as int].0 == terms@[m as int].part().0);
                    assert(mentioned(dp, k, v, terms@[m as int].part().0));
                    assert(adds_mentioned(dp, k, v, start.packages(), self.packages()));
                    self.lemma_grows(middle, before);
                    lemma_faithful_grow(dp, middle, *self);
                    lemma_named_grow(middle.packages(), self.packages(), prefix);
                    assert(middle.packages().len() <= self.packages().len());
                    assert forall|x: int| 0 <= x < clause@.len() implies (#[trigger] clause@[x]).0
                        < self.domains@.len() by {
                        if x < prefix.len() {
                            assert(clause@[x] == prefix[x]);
                        }
                    }
                    assert(named(self.packages(), clause@) =~= named(
                        self.packages(),
                        prefix,
                    ).push(conflict[m as int]));
                    assert(full.take(m + 2) =~= full.take(m + 1).push(full[m + 1]));
                    assert(full[m + 1] == conflict[m as int]);
                    assert forall|x: int| 0 <= x < m + 1 implies self.packages().contains(
                        (#[trigger] conflict[x]).0,
                    ) by {
                        if x < m {
                            lemma_contains_grow(
                                middle.packages(),
                                self.packages(),
                                conflict[x].0,
                            );
                        } else {
                            assert(self.packages()[id as int] == conflict[x].0);
                        }
                    }
                }
                m += 1;
            }
            let ghost interned = *self;
            let ghost given = named(self.packages(), clause@);
            assert(full.take(m + 1) =~= full);
            self.add(clause);
            proof {
                interned.lemma_grows(before, start);
                self.lemma_grows(interned, before);
                self.lemma_grows(before, start);
                assert(self.packages()[index as int] == k);
                lemma_conflict_stated(dp, k, v, c as int);
                lemma_faithful_last(dp, self.packages(), given, k, v);
                lemma_faithful_grow(dp, interned, *self);
                let last = self.rules().len() - 1;
                assert(self.rules()[last] == self.rules().last());
                assert(problem::covered_by(given, self.rules()[last]));
                assert forall|j: int| 0 <= j < requirements.len() implies problem::covers(
                    self.rules(),
                    problem::requirement_clause(k, v, #[trigger] requirements[j]),
                ) && self.packages().contains(requirements[j].0) by {
                    problem::lemma_covers_grow(
                        before.rules(),
                        self.rules(),
                        problem::requirement_clause(k, v, requirements[j]),
                    );
                    lemma_contains_grow(before.packages(), self.packages(), requirements[j].0);
                }
                assert forall|j: int| 0 <= j < c + 1 implies problem::covers(
                    self.rules(),
                    problem::conflict_clause(k, v, #[trigger] conflicts[j]),
                ) by {
                    if j < c {
                        problem::lemma_covers_grow(
                            before.rules(),
                            self.rules(),
                            problem::conflict_clause(k, v, conflicts[j]),
                        );
                    }
                }
                assert forall|j: int, m: int|
                    0 <= j < c + 1 && 0 <= m < conflicts[j].len() implies self.packages().contains(
                    (#[trigger] conflicts[j][m]).0,
                ) by {
                    if j < c {
                        lemma_contains_grow(
                            before.packages(),
                            self.packages(),
                            conflicts[j][m].0,
                        );
                    } else {
                        assert(interned.packages().contains(conflict[m].0));
                    }
                }
            }
            c += 1;
        }
        Ok(())
    }
}

/// The states that the provider leaves a package.
pub open spec fn offered_state<DP: DependencyProvider>(
    dp: DP,
    k: Key<DP>,
    x: Option<VersionOf<DP>>,
) -> bool {
    x matches Some(v) ==> dp.offers(k, v)
}

/// The model says exactly what the provider says about its packages, and is closed under what that
/// mentions. Each state of a package is listed once, and a clause speaks of a package at most once.
pub open spec fn is_exact<DP: DependencyProvider>(
    dp: DP,
    model: ConstraintModel<DP::P, DP::VS>,
) -> bool {
    &&& model.wf()
    &&& forall|i: int|
        0 <= i < model.domains().len() ==> (#[trigger] model.domains()[i]).values@.no_duplicates()
    &&& forall|c: int|
        0 <= c < model.rules().len() ==> search::distinct(#[trigger] model.rules()[c])
    &&& forall|i: int, x: Option<VersionOf<DP>>|
        0 <= i < model.domains().len() ==> (#[trigger] model.domains()[i].values@.contains(x)
            <==> offered_state(dp, model.packages()[i], x))
    &&& forall|i: int, v: VersionOf<DP>|
        0 <= i < model.packages().len() && #[trigger] dp.offers(model.packages()[i], v) ==> {
            &&& problem::explained(dp, model.rules(), model.packages()[i], v)
            &&& closed_at(dp, model.packages(), model.packages()[i], v)
        }
    &&& forall|c: int|
        0 <= c < model.rules().len() ==> faithful(
            dp,
            model.packages(),
            #[trigger] model.rules()[c],
        )
}

/// Each state of a package is listed once.
spec fn each_state_once<P, V>(domains: Seq<Domain<P, V>>) -> bool {
    forall|i: int| 0 <= i < domains.len() ==> (#[trigger] domains[i]).values@.no_duplicates()
}

/// The first places hold all that the provider says about their packages.
spec fn loaded<DP: DependencyProvider>(dp: DP, loader: Loader<DP::P, DP::VS>, n: int) -> bool {
    &&& forall|i: int, x: Option<VersionOf<DP>>|
        0 <= i < n ==> (#[trigger] loader.domains@[i].values@.contains(x) <==> offered_state(
            dp,
            loader.packages()[i],
            x,
        ))
    &&& forall|i: int, v: VersionOf<DP>|
        0 <= i < n && #[trigger] dp.offers(loader.packages()[i], v) ==> {
            &&& problem::explained(dp, loader.rules(), loader.packages()[i], v)
            &&& closed_at(dp, loader.packages(), loader.packages()[i], v)
        }
    &&& forall|i: int|
        n <= i < loader.domains@.len() ==> (#[trigger] loader.domains@[i]).values@ == seq![
            None::<VersionOf<DP>>,
        ]
}

proof fn lemma_closed_grow<DP: DependencyProvider>(
    dp: DP,
    packages: Seq<Key<DP>>,
    more: Seq<Key<DP>>,
    k: Key<DP>,
    v: VersionOf<DP>,
)
    requires
        packages.is_prefix_of(more),
        closed_at(dp, packages, k, v),
    ensures
        closed_at(dp, more, k, v),
{
    if let Some(requirements) = dp.requirements(k, v) {
        assert forall|i: int| 0 <= i < requirements.len() implies more.contains(
            (#[trigger] requirements[i]).0,
        ) by {
            lemma_contains_grow(packages, more, requirements[i].0);
        }
        assert forall|i: int, j: int|
            0 <= i < dp.conflicts(k, v).len() && 0 <= j < dp.conflicts(k, v)[i].len() implies more.contains(
            (#[trigger] dp.conflicts(k, v)[i][j]).0) by {
            lemma_contains_grow(packages, more, dp.conflicts(k, v)[i][j].0);
        }
    }
}

/// The root package, those projected and those required.
pub open spec fn asked_for<K, V>(root: K, projected: Seq<K>, required: Clause<K, V>) -> Seq<K> {
    seq![root] + projected + Seq::new(required.len(), |i: int| required[i].0)
}

/// Load all that the provider says about the packages, and about the packages that it mentions.
#[verifier::rlimit(40)]
pub fn load<DP: DependencyProvider>(
    provider: &DP,
    root: &DP::P,
    projected: &Vec<DP::P>,
    required: &Vec<(DP::P, Term<DP::VS>)>,
) -> (r: Result<ConstraintModel<DP::P, DP::VS>, PubGrubError<DP>>)
    ensures
        match r {
            Ok(model) => {
                &&& is_exact(*provider, model)
                &&& model.packages().contains(root@)
                &&& forall|i: int|
                    0 <= i < projected@.len() ==> model.packages().contains(
                        (#[trigger] projected@[i])@,
                    )
                &&& forall|i: int|
                    0 <= i < required@.len() ==> model.packages().contains(
                        (#[trigger] required@[i]).0@,
                    )
                &&& forall|i: int|
                    0 <= i < model.packages().len() ==> #[trigger] is_called_for(
                        *provider,
                        asked_for(root@, package::keys(projected@), term::parts(required@)),
                        model.packages(),
                        i,
                    )
            },
            Err(error) => error.raised_by(*provider) && provider.may_fail(),
        },
        error::heeds_cancellation(*provider, r),
        exists|polls: Seq<(int, Result<(), DP::Err>)>| #[trigger]
            is_polled(*provider, polls, r),
{
    let mut polls: Polls<DP> = Polls::new();
    let r = load_asking(provider, root, projected, required, &mut polls);
    assert(is_polled(*provider, polls@, r));
    r
}

/// The number of states that are listed for the first packages.
pub open spec fn states_listed<P: Package, V>(domains: Seq<Domain<P, V>>, n: int) -> nat
    decreases n,
{
    if n <= 0 {
        0
    } else {
        states_listed(domains, n - 1) + domains[n - 1].values@.len()
    }
}

proof fn lemma_states_listed<P: Package, V>(
    a: Seq<Domain<P, V>>,
    b: Seq<Domain<P, V>>,
    n: int,
)
    requires
        forall|i: int| 0 <= i < n ==> (#[trigger] a[i]).values@.len() == b[i].values@.len(),
    ensures
        states_listed(a, n) == states_listed(b, n),
    decreases n,
{
    if n > 0 {
        lemma_states_listed(a, b, n - 1);
        assert(a[n - 1].values@.len() == b[n - 1].values@.len());
    }
}

/// The provider was asked whether to go on once for each package of the model and once for each
/// version of it, that is, as often as states are listed; and its error ends the loading.
pub open spec fn is_polled<DP: DependencyProvider>(
    dp: DP,
    polls: Seq<(int, Result<(), DP::Err>)>,
    r: Result<ConstraintModel<DP::P, DP::VS>, PubGrubError<DP>>,
) -> bool {
    &&& polls::are_answers(dp, polls, r)
    &&& r matches Ok(model) ==> polls.len() == states_listed(
        model.domains(),
        model.domains().len() as int,
    )
}

/// Loads the model, and keeps in mind how the provider was asked whether to go on.
fn load_asking<DP: DependencyProvider>(
    provider: &DP,
    root: &DP::P,
    projected: &Vec<DP::P>,
    required: &Vec<(DP::P, Term<DP::VS>)>,
    polls: &mut Polls<DP>,
) -> (r: Result<ConstraintModel<DP::P, DP::VS>, PubGrubError<DP>>)
    requires
        old(polls)@.len() == 0,
    ensures
        match r {
            Ok(model) => {
                &&& is_exact(*provider, model)
                &&& model.packages().contains(root@)
                &&& forall|i: int|
                    0 <= i < projected@.len() ==> model.packages().contains(
                        (#[trigger] projected@[i])@,
                    )
                &&& forall|i: int|
                    0 <= i < required@.len() ==> model.packages().contains(
                        (#[trigger] required@[i]).0@,
                    )
                &&& forall|i: int|
                    0 <= i < model.packages().len() ==> #[trigger] is_called_for(
                        *provider,
                        asked_for(root@, package::keys(projected@), term::parts(required@)),
                        model.packages(),
                        i,
                    )
            },
            Err(error) => error.raised_by(*provider) && provider.may_fail(),
        },
        error::heeds_cancellation(*provider, r),
        is_polled(*provider, final(polls)@, r),
{
    let ghost dp = *provider;
    let ghost asked = asked_for(root@, package::keys(projected@), term::parts(required@));
    proof {
        assert(asked[0] == root@);
        assert forall|i: int| 0 <= i < projected@.len() implies asked.contains(
            (#[trigger] projected@[i])@,
        ) by {
            assert(asked[i + 1] == projected@[i]@);
        }
        assert forall|i: int| 0 <= i < required@.len() implies asked.contains(
            (#[trigger] required@[i]).0@,
        ) by {
            assert(asked[projected@.len() + 1 + i] == required@[i].0@);
        }
    }
    let mut loader: Loader<DP::P, DP::VS> = Loader { domains: Vec::new(), clauses: Vec::new() };
    let ghost empty = loader;
    proof {
        assert(loader.packages() =~= Seq::empty());
        loader.lemma_grows_refl();
    }
    let place = loader.intern(root);
    proof {
        assert(loader.packages()[place as int] == root@);
        assert(loader.rules() =~= Seq::empty());
    }
    let mut i: usize = 0;
    while i < projected.len()
        invariant
            loader.ok(),
            loader.grows(empty),
            empty.domains@.len() == 0,
            loader.rules().len() == 0,
            loader.packages().contains(root@),
            forall|i: int|
                0 <= i < projected@.len() ==> asked.contains((#[trigger] projected@[i])@),
            forall|j: int|
                0 <= j < loader.packages().len() ==> asked.contains(#[trigger] loader.packages()[j]),
            i <= projected@.len(),
            forall|j: int|
                0 <= j < i ==> loader.packages().contains((#[trigger] projected@[j])@),
        decreases projected@.len() - i,
    {
        let ghost before = loader;
        let place = loader.intern(&projected[i]);
        proof {
            assert(asked.contains(projected@[i as int]@));
            loader.lemma_grows(before, empty);
            lemma_contains_grow(before.packages(), loader.packages(), root@);
            assert forall|j: int| 0 <= j < i + 1 implies loader.packages().contains(
                (#[trigger] projected@[j])@,
            ) by {
                if j < i {
                    lemma_contains_grow(before.packages(), loader.packages(), projected@[j]@);
                } else {
                    assert(loader.packages()[place as int] == projected@[j]@);
                }
            }
        }
        i += 1;
    }
    let mut i: usize = 0;
    while i < required.len()
        invariant
            loader.ok(),
            loader.grows(empty),
            empty.domains@.len() == 0,
            loader.rules().len() == 0,
            loader.packages().contains(root@),
            forall|j: int|
                0 <= j < projected@.len() ==> loader.packages().contains(
                    (#[trigger] projected@[j])@,
                ),
            forall|i: int|
                0 <= i < required@.len() ==> asked.contains((#[trigger] required@[i]).0@),
            forall|j: int|
                0 <= j < loader.packages().len() ==> asked.contains(#[trigger] loader.packages()[j]),
            i <= required@.len(),
            forall|j: int|
                0 <= j < i ==> loader.packages().contains((#[trigger] required@[j]).0@),
        decreases required@.len() - i,
    {
        let ghost before = loader;
        let place = loader.intern(&required[i].0);
        proof {
            assert(asked.contains(required@[i as int].0@));
            loader.lemma_grows(before, empty);
            lemma_contains_grow(before.packages(), loader.packages(), root@);
            assert forall|j: int| 0 <= j < projected@.len() implies loader.packages().contains(
                (#[trigger] projected@[j])@,
            ) by {
                lemma_contains_grow(before.packages(), loader.packages(), projected@[j]@);
            }
            assert forall|j: int| 0 <= j < i + 1 implies loader.packages().contains(
                (#[trigger] required@[j]).0@,
            ) by {
                if j < i {
                    lemma_contains_grow(before.packages(), loader.packages(), required@[j].0@);
                } else {
                    assert(loader.packages()[place as int] == required@[j].0@);
                }
            }
        }
        i += 1;
    }
    let ghost given = loader;
    let ghost mut done: Seq<(DP::P, VersionOf<DP>)> = Seq::empty();
    let mut index: usize = 0;
    proof {
        loader.lemma_grows_refl();
        assert(loaded(dp, loader, 0)) by {
            assert forall|i: int| 0 <= i < loader.domains@.len() implies (
            #[trigger] loader.domains@[i]).values@ == seq![None::<VersionOf<DP>>] by {}
        }
        assert(all_faithful(dp, loader));
        assert(each_state_once(loader.domains@)) by {
            assert forall|i: int| 0 <= i < loader.domains@.len() implies (
            #[trigger] loader.domains@[i]).values@.no_duplicates() by {
                assert(loader.domains@[i].values@ == seq![None::<VersionOf<DP>>]);
            }
        }
    }
    while index < loader.domains.len()
        invariant
            dp == *provider,
            loader.ok(),
            loader.grows_names(given),
            forall|j: int|
                0 <= j < loader.packages().len() ==> #[trigger] is_called_for(
                    dp,
                    asked,
                    loader.packages(),
                    j,
                ),
            index <= loader.domains@.len(),
            index > 0 ==> error::may_go_on(dp),
            loader.domains@.len() > 0,
            loaded(dp, loader, index as int),
            each_state_once(loader.domains@),
            all_faithful(dp, loader),
            polls::all_go_on(dp, polls@),
            polls@.len() == states_listed(loader.domains@, index as int),
            forall|k: Key<DP>, v: VersionOf<DP>| #[trigger]
                run::has_pair(done, k, v) ==> loader.packages().take(index as int).contains(k),
        decreases run::not_added(dp, done).len(), loader.domains@.len() - index,
    {
        let ghost at_start = loader;
        let ghost done_before = done;
        let ghost fresh = loader.packages()[index as int];
        let ghost answers = polls@;
        let answer = polls.poll(provider);
        proof {
            let failed = PubGrubError::<DP>::ErrorInShouldCancel(answer->Err_0);
            polls::lemma_polled(
                dp,
                answers,
                answer,
                Err::<ConstraintModel<DP::P, DP::VS>, PubGrubError<DP>>(failed),
            );
        }
        if let Err(source) = answer {
            return Err(PubGrubError::ErrorInShouldCancel(source));
        }
        assert(error::may_go_on(dp)) by {
            assert(answer == Ok::<(), DP::Err>(answer->Ok_0));
        }
        let package = loader.domains[index].package.duplicate();
        let mut remaining = DP::VS::full();
        proof {
            assert(loader.domains@[index as int].values@ == seq![None::<VersionOf<DP>>]);
            assert(loader.domains@[index as int].values@[0] == None::<VersionOf<DP>>);
            assert(remaining@ =~= unlisted(loader.domains@[index as int].values@));
            assert forall|k: Key<DP>, v: VersionOf<DP>| #[trigger]
                run::has_pair(done, k, v) implies at_start.packages().take(index as int).contains(
                k,
            ) || (k == fresh && loader.domains@[index as int].values@.contains(Some(v))) by {}
        }
        loop
            invariant
                dp == *provider,
                error::may_go_on(dp),
                loader.ok(),
                loader.grows_names(given),
                forall|j: int|
                    0 <= j < loader.packages().len() ==> #[trigger] is_called_for(
                        dp,
                        asked,
                        loader.packages(),
                        j,
                    ),
                loader.grows_names(at_start),
                index < at_start.domains@.len(),
                at_start.domains@.len() <= loader.domains@.len(),
                fresh == at_start.packages()[index as int],
                fresh == loader.packages()[index as int],
                package@ == fresh,
                at_start.packages().no_duplicates(),
                each_state_once(loader.domains@),
                all_faithful(dp, loader),
                polls::all_go_on(dp, polls@),
                polls@.len() == states_listed(loader.domains@, index as int)
                    + loader.domains@[index as int].values@.len(),
                remaining@ == unlisted(loader.domains@[index as int].values@),
                loader.domains@[index as int].values@.contains(None),
                forall|i: int, x: Option<VersionOf<DP>>|
                    0 <= i < index ==> (#[trigger] loader.domains@[i].values@.contains(x)
                        <==> offered_state(dp, loader.packages()[i], x)),
                forall|i: int, v: VersionOf<DP>|
                    0 <= i < index && #[trigger] dp.offers(loader.packages()[i], v) ==> {
                        &&& problem::explained(dp, loader.rules(), loader.packages()[i], v)
                        &&& closed_at(dp, loader.packages(), loader.packages()[i], v)
                    },
                forall|i: int|
                    index < i < loader.domains@.len() ==> (#[trigger] loader.domains@[i]).values@
                        == seq![None::<VersionOf<DP>>],
                forall|v: VersionOf<DP>| #[trigger]
                    loader.domains@[index as int].values@.contains(Some(v)) ==> {
                        &&& dp.offers(fresh, v)
                        &&& problem::explained(dp, loader.rules(), fresh, v)
                        &&& closed_at(dp, loader.packages(), fresh, v)
                    },
                forall|k: Key<DP>, v: VersionOf<DP>| #[trigger]
                    run::has_pair(done, k, v) ==> at_start.packages().take(index as int).contains(
                        k,
                    ) || (k == fresh && loader.domains@[index as int].values@.contains(Some(v))),
                run::not_added(dp, done).len() <= run::not_added(dp, done_before).len(),
                run::not_added(dp, done).len() == run::not_added(dp, done_before).len()
                    ==> loader.domains@.len() == at_start.domains@.len(),
            ensures
                forall|v: VersionOf<DP>| #[trigger]
                    remaining@.contains(v) ==> !dp.offers(fresh, v),
            decreases run::not_added(dp, done).len(),
        {
            let candidate = match provider.choose_version(&package, &remaining) {
                Ok(Some(candidate)) => candidate,
                Ok(None) => {
                    break;
                },
                Err(source) => {
                    assert(error::fails_to_choose(dp, package@, source));
                    proof {
                        lemma_not_polled::<DP>(
                            dp,
                            polls@,
                            PubGrubError::ErrorChoosingVersion { package, source },
                        );
                    }
                    return Err(PubGrubError::ErrorChoosingVersion { package, source });
                },
            };
            let ghost answers = polls@;
            let answer = polls.poll(provider);
            proof {
                let failed = PubGrubError::<DP>::ErrorInShouldCancel(answer->Err_0);
                polls::lemma_polled(
                    dp,
                    answers,
                    answer,
                    Err::<ConstraintModel<DP::P, DP::VS>, PubGrubError<DP>>(failed),
                );
            }
            if let Err(source) = answer {
                return Err(PubGrubError::ErrorInShouldCancel(source));
            }
            let ghost before = loader;
            let ghost list = loader.domains@[index as int].values@;
            proof {
                assert(!list.contains(Some(candidate)));
                assert(!run::has_pair(done, fresh, candidate)) by {
                    if at_start.packages().take(index as int).contains(fresh) {
                        let j = choose|j: int|
                            0 <= j < index && at_start.packages().take(index as int)[j] == fresh;
                        assert(at_start.packages()[j] == at_start.packages()[index as int]);
                    }
                }
                run::lemma_not_added(dp, done, (package, candidate));
            }
            remaining =
            remaining.intersection(&DP::VS::singleton(candidate.duplicate()).complement());
            loader.domains[index].values.push(Some(candidate.duplicate()));
            let ghost longer = loader.domains@[index as int].values@;
            let ghost pushed = loader;
            proof {
                assert(longer =~= list.push(Some(candidate)));
                assert forall|x: Option<VersionOf<DP>>| #[trigger] longer.contains(
                    x,
                ) <==> list.contains(x) || x == Some(candidate) by {
                    assert(longer[list.len() as int] == Some(candidate));
                    if list.contains(x) {
                        let j = choose|j: int| 0 <= j < list.len() && list[j] == x;
                        assert(longer[j] == x);
                    }
                }
                assert(remaining@ =~= unlisted(longer));
                assert(pushed.packages() =~= before.packages());
                assert(pushed.rules() =~= before.rules());
                assert forall|c: int| 0 <= c < pushed.clauses@.len() implies in_range(
                    (#[trigger] pushed.clauses@[c])@,
                    pushed.domains@.len() as int,
                ) by {
                    assert(pushed.clauses@[c] == before.clauses@[c]);
                }
                assert forall|i: int| 0 <= i < pushed.domains@.len() && i
                    != index implies #[trigger] pushed.domains@[i] == before.domains@[i] by {}
                assert(all_faithful(dp, pushed)) by {
                    assert forall|c: int| 0 <= c < pushed.rules().len() implies faithful(
                        dp,
                        pushed.packages(),
                        #[trigger] pushed.rules()[c],
                    ) by {
                        assert(pushed.rules()[c] == before.rules()[c]);
                    }
                }
            }
            if let Err(error) = loader.load_version(provider, index, &package, &candidate) {
                proof {
                    lemma_not_polled::<DP>(dp, polls@, error);
                }
                return Err(error);
            }
            proof {
                let added = done;
                done = done.push((package, candidate));
                assert(loader.domains@[index as int].values == pushed.domains@[index as int].values);
                assert forall|i: int| 0 <= i < index implies (
                #[trigger] loader.domains@[i]).values@.len() == before.domains@[i].values@.len() by {
                    assert(loader.domains@[i].values == pushed.domains@[i].values);
                    assert(pushed.domains@[i] == before.domains@[i]);
                }
                lemma_states_listed(loader.domains@, before.domains@, index as int);
                assert(each_state_once(loader.domains@)) by {
                    assert forall|i: int| 0 <= i < loader.domains@.len() implies (
                    #[trigger] loader.domains@[i]).values@.no_duplicates() by {
                        if i < pushed.domains@.len() {
                            assert(loader.domains@[i].values == pushed.domains@[i].values);
                            if i == index {
                                assert(before.domains@[i].values@.no_duplicates());
                                assert forall|a: int, b: int|
                                    0 <= a < longer.len() && 0 <= b < longer.len() && a
                                        != b implies longer[a] != longer[b] by {
                                    if a < list.len() && b < list.len() {
                                        assert(longer[a] == list[a] && longer[b] == list[b]);
                                    } else if a < list.len() {
                                        assert(list.contains(list[a]));
                                    } else {
                                        assert(list.contains(list[b]));
                                    }
                                }
                            } else {
                                assert(pushed.domains@[i] == before.domains@[i]);
                            }
                        } else {
                            assert(loader.domains@[i].values@ == seq![None::<VersionOf<DP>>]);
                        }
                    }
                }
                assert forall|i: int, x: Option<VersionOf<DP>>| 0 <= i < index implies (
                #[trigger] loader.domains@[i].values@.contains(x) <==> offered_state(
                    dp,
                    loader.packages()[i],
                    x,
                )) by {
                    assert(loader.domains@[i].values == pushed.domains@[i].values);
                    assert(pushed.domains@[i] == before.domains@[i]);
                    assert(before.domains@[i].values@.contains(x) <==> offered_state(
                        dp,
                        before.packages()[i],
                        x,
                    ));
                    assert(loader.packages()[i] == before.packages()[i]);
                }
                assert forall|i: int, v: VersionOf<DP>|
                    0 <= i < index && #[trigger] dp.offers(loader.packages()[i], v) implies {
                    &&& problem::explained(dp, loader.rules(), loader.packages()[i], v)
                    &&& closed_at(dp, loader.packages(), loader.packages()[i], v)
                } by {
                    assert(loader.packages()[i] == before.packages()[i]);
                    assert(dp.offers(before.packages()[i], v));
                    problem::lemma_explained_grow(
                        dp,
                        before.rules(),
                        loader.rules(),
                        before.packages()[i],
                        v,
                    );
                    lemma_closed_grow(
                        dp,
                        before.packages(),
                        loader.packages(),
                        before.packages()[i],
                        v,
                    );
                }
                assert forall|i: int| index < i < loader.domains@.len() implies (
                #[trigger] loader.domains@[i]).values@ == seq![None::<VersionOf<DP>>] by {
                    if i < pushed.domains@.len() {
                        assert(loader.domains@[i].values == pushed.domains@[i].values);
                        assert(pushed.domains@[i] == before.domains@[i]);
                        assert(before.domains@[i].values@ == seq![None::<VersionOf<DP>>]);
                    }
                }
                assert forall|v: VersionOf<DP>| #[trigger]
                    loader.domains@[index as int].values@.contains(Some(v)) implies {
                    &&& dp.offers(fresh, v)
                    &&& problem::explained(dp, loader.rules(), fresh, v)
                    &&& closed_at(dp, loader.packages(), fresh, v)
                } by {
                    if v != candidate {
                        assert(list.contains(Some(v)));
                        assert(before.domains@[index as int].values@.contains(Some(v)));
                        problem::lemma_explained_grow(
                            dp,
                            before.rules(),
                            loader.rules(),
                            fresh,
                            v,
                        );
                        lemma_closed_grow(dp, before.packages(), loader.packages(), fresh, v);
                    }
                }
                assert forall|k: Key<DP>, v: VersionOf<DP>| #[trigger]
                    run::has_pair(done, k, v) implies at_start.packages().take(
                    index as int,
                ).contains(k) || (k == fresh && loader.domains@[index as int].values@.contains(
                    Some(v),
                )) by {
                    let j = choose|j: int|
                        0 <= j < done.len() && (#[trigger] done[j]).0@ == k && done[j].1 == v;
                    if j < added.len() {
                        assert(added[j] == done[j]);
                        assert(run::has_pair(added, k, v));
                    }
                }
                loader.lemma_grows_names(before, given);
                loader.lemma_grows_names(before, at_start);
                assert forall|j: int| 0 <= j < loader.packages().len() implies #[trigger] is_called_for(
                    dp,
                    asked,
                    loader.packages(),
                    j,
                ) by {
                    if j < before.packages().len() {
                        assert(is_called_for(dp, asked, before.packages(), j));
                        lemma_called_for_grow(dp, asked, before.packages(), loader.packages(), j);
                    } else {
                        assert(loader.packages()[index as int] == fresh);
                        assert(dp.offers(loader.packages()[index as int], candidate));
                        assert(mentioned(dp, fresh, candidate, loader.packages()[j]));
                    }
                }
            }
        }
        proof {
            assert(loaded(dp, loader, index + 1)) by {
                assert forall|i: int, x: Option<VersionOf<DP>>| 0 <= i < index + 1 implies (
                #[trigger] loader.domains@[i].values@.contains(x) <==> offered_state(
                    dp,
                    loader.packages()[i],
                    x,
                )) by {
                    if i == index {
                        if let Some(v) = x {
                            assert(remaining@.contains(v)
                                <==> !loader.domains@[index as int].values@.contains(Some(v)));
                            if dp.offers(fresh, v) {
                                assert(!remaining@.contains(v));
                            }
                        }
                    }
                }
                assert forall|i: int, v: VersionOf<DP>|
                    0 <= i < index + 1 && #[trigger] dp.offers(loader.packages()[i], v) implies {
                    &&& problem::explained(dp, loader.rules(), loader.packages()[i], v)
                    &&& closed_at(dp, loader.packages(), loader.packages()[i], v)
                } by {
                    if i == index {
                        assert(!remaining@.contains(v));
                        assert(loader.domains@[index as int].values@.contains(Some(v)));
                    }
                }
            }
            let prefix = loader.packages().take(index + 1);
            assert forall|k: Key<DP>, v: VersionOf<DP>| #[trigger]
                run::has_pair(done, k, v) implies prefix.contains(k) by {
                if k == fresh {
                    assert(prefix[index as int] == k);
                } else {
                    let shorter = at_start.packages().take(index as int);
                    let j = choose|j: int| 0 <= j < shorter.len() && shorter[j] == k;
                    assert(loader.packages()[j] == at_start.packages()[j]);
                    assert(prefix[j] == k);
                }
            }
        }
        index += 1;
    }
    proof {
        assert forall|i: int| 0 <= i < projected@.len() implies loader.packages().contains(
            (#[trigger] projected@[i])@,
        ) by {
            lemma_contains_grow(given.packages(), loader.packages(), projected@[i]@);
        }
        assert forall|i: int| 0 <= i < required@.len() implies loader.packages().contains(
            (#[trigger] required@[i]).0@,
        ) by {
            lemma_contains_grow(given.packages(), loader.packages(), required@[i].0@);
        }
        lemma_contains_grow(given.packages(), loader.packages(), root@);
    }
    let ghost rules = loader.rules();
    proof {
        assert forall|c: int| 0 <= c < rules.len() implies search::distinct(#[trigger] rules[c]) by {
            let _ = lemma_faithful(dp, loader.packages(), rules[c]);
        }
    }
    proof {
        lemma_all_polled::<DP>(dp, polls@);
    }
    let model = ConstraintModel::new(loader.domains, loader.clauses);
    assert(model.rules() =~= rules);
    Ok(model)
}

proof fn lemma_not_polled<DP: DependencyProvider>(
    dp: DP,
    polls: Seq<(int, Result<(), DP::Err>)>,
    error: PubGrubError<DP>,
)
    requires
        polls::all_go_on(dp, polls),
    ensures
        is_polled::<DP>(dp, polls, Err(error)),
{
    if polls.len() > 0 {
        assert(polls[polls.len() - 1].1 is Ok);
    }
}

proof fn lemma_all_polled<DP: DependencyProvider>(
    dp: DP,
    polls: Seq<(int, Result<(), DP::Err>)>,
)
    requires
        polls::all_go_on(dp, polls),
    ensures
        forall|r: Result<ConstraintModel<DP::P, DP::VS>, PubGrubError<DP>>| #[trigger]
            polls::are_answers(dp, polls, r),
{
    if polls.len() > 0 {
        assert(polls[polls.len() - 1].1 is Ok);
    }
}

proof fn lemma_called_for_grow<DP: DependencyProvider>(
    dp: DP,
    asked: Seq<Key<DP>>,
    packages: Seq<Key<DP>>,
    more: Seq<Key<DP>>,
    i: int,
)
    requires
        packages.is_prefix_of(more),
        0 <= i < packages.len(),
        is_called_for(dp, asked, packages, i),
    ensures
        is_called_for(dp, asked, more, i),
{
    assert(more[i] == packages[i]);
    if !asked.contains(packages[i]) {
        let (j, v) = choose|j: int, v: VersionOf<DP>|
            0 <= j < i && #[trigger] dp.offers(packages[j], v) && mentioned(
                dp,
                packages[j],
                v,
                packages[i],
            );
        assert(more[j] == packages[j]);
        assert(dp.offers(more[j], v));
    }
}

/// The versions that are not in the list.
spec fn unlisted<V>(values: Seq<Option<V>>) -> Set<V> {
    Set::new(|v: V| !values.contains(Some(v)))
}

impl<P: Package, VS: VersionSet> Loader<P, VS> {
    /// New packages and rules were added.
    spec fn grows_names(self, earlier: Self) -> bool {
        &&& earlier.packages().is_prefix_of(self.packages())
        &&& earlier.rules().is_prefix_of(self.rules())
    }

    proof fn lemma_grows_names(self, middle: Self, earlier: Self)
        requires
            middle.packages().is_prefix_of(self.packages()),
            middle.rules().is_prefix_of(self.rules()),
            middle.grows_names(earlier),
        ensures
            self.grows_names(earlier),
    {
        run::lemma_prefix_chain(earlier.packages(), middle.packages(), self.packages());
        run::lemma_prefix_chain(earlier.rules(), middle.rules(), self.rules());
    }
}

} // verus!
