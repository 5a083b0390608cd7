//! How often packages were part of a conflict.

use vstd::prelude::*;

use crate::package::Package;
use crate::search;
use crate::statistics;
use crate::statistics::PackageResolutionStatistics;
use crate::term;
use crate::term::Term;
use crate::version_set::VersionSet;

verus! {

/// The four counts of a package.
pub type Counts = (u32, u32, u32, u32);

/// The counts of a package after one more conflict. It is counted where it was affected, or else
/// where the root cause of the conflict speaks of it.
pub open spec fn after_conflict(
    counts: Counts,
    affected: bool,
    involved: bool,
    in_propagation: bool,
) -> Counts {
    if affected && in_propagation {
        (statistics::counted(counts.0), counts.1, counts.2, counts.3)
    } else if affected {
        (counts.0, counts.1, statistics::counted(counts.2), counts.3)
    } else if involved && in_propagation {
        (counts.0, statistics::counted(counts.1), counts.2, counts.3)
    } else if involved {
        (counts.0, counts.1, counts.2, statistics::counted(counts.3))
    } else {
        counts
    }
}

/// No package is listed twice.
spec fn listed_once<P: Package>(list: Seq<(P, PackageResolutionStatistics)>) -> bool {
    forall|i: int, j: int|
        0 <= i < list.len() && 0 <= j < list.len() && i != j ==> (#[trigger] list[i]).0@ != (
        #[trigger] list[j]).0@
}

/// The package is listed.
spec fn is_listed<P: Package>(list: Seq<(P, PackageResolutionStatistics)>, k: P::V) -> bool {
    exists|i: int| 0 <= i < list.len() && (#[trigger] list[i]).0@ == k
}

/// What is listed for the package.
spec fn listed_counts<P: Package>(list: Seq<(P, PackageResolutionStatistics)>, k: P::V) -> Counts {
    if is_listed(list, k) {
        list[choose|i: int| 0 <= i < list.len() && (#[trigger] list[i]).0@ == k].1.counts()
    } else {
        (0u32, 0u32, 0u32, 0u32)
    }
}

proof fn lemma_listed<P: Package>(list: Seq<(P, PackageResolutionStatistics)>, i: int)
    requires
        listed_once(list),
        0 <= i < list.len(),
    ensures
        listed_counts(list, list[i].0@) == list[i].1.counts(),
{
    let k = list[i].0@;
    let j = choose|j: int| 0 <= j < list.len() && (#[trigger] list[j]).0@ == k;
    assert(list[j].0@ == list[i].0@);
}

/// How often packages were part of a conflict.
pub struct ConflictTracker<P: Package> {
    list: Vec<(P, PackageResolutionStatistics)>,
}

impl<P: Package> ConflictTracker<P> {
    #[verifier::type_invariant]
    spec fn inv(self) -> bool {
        listed_once(self.list@)
    }

    /// The counts of the package.
    pub closed spec fn counts(self, k: P::V) -> Counts {
        listed_counts(self.list@, k)
    }

    /// Nothing has been counted.
    pub fn new() -> (r: Self)
        ensures
            forall|k: P::V| #[trigger] r.counts(k) == (0u32, 0u32, 0u32, 0u32),
    {
        ConflictTracker { list: Vec::new() }
    }

    /// The statistics of the package.
    pub fn get(&self, package: &P) -> (r: PackageResolutionStatistics)
        ensures
            r.counts() == self.counts(package@),
    {
        proof {
            use_type_invariant(self);
        }
        let mut i: usize = 0;
        while i < self.list.len()
            invariant
                i <= self.list@.len(),
                listed_once(self.list@),
                forall|j: int| 0 <= j < i ==> (#[trigger] self.list@[j]).0@ != package@,
            decreases self.list@.len() - i,
        {
            if self.list[i].0.same(package) {
                proof {
                    lemma_listed(self.list@, i as int);
                }
                return self.list[i].1.duplicate();
            }
            i += 1;
        }
        PackageResolutionStatistics::new()
    }

    /// Count a conflict for the affected package and for the others in the terms.
    pub fn count<VS: VersionSet>(
        &mut self,
        affected: &P,
        terms: &Vec<(P, Term<VS>)>,
        in_propagation: bool,
    )
        requires
            search::distinct(term::parts(terms@)),
        ensures
            forall|k: P::V| #[trigger]
                final(self).counts(k) == after_conflict(
                    old(self).counts(k),
                    k == affected@,
                    search::mentions(term::parts(terms@), k),
                    in_propagation,
                ),
    {
        proof {
            use_type_invariant(&*self);
        }
        let ghost clause = term::parts(terms@);
        let mut list: Vec<(P, PackageResolutionStatistics)> = Vec::new();
        std::mem::swap(&mut list, &mut self.list);
        let ghost before = list@;
        note(&mut list, affected, true, in_propagation);
        let mut i: usize = 0;
        while i < terms.len()
            invariant
                listed_once(list@),
                search::distinct(clause),
                clause == term::parts(terms@),
                i <= terms@.len(),
                forall|k: P::V| #[trigger]
                    listed_counts(list@, k) == after_conflict(
                        listed_counts(before, k),
                        k == affected@,
                        search::mentions(clause.take(i as int), k),
                        in_propagation,
                    ),
            decreases terms@.len() - i,
        {
            let ghost earlier = list@;
            let ghost name = terms@[i as int].0@;
            assert(clause[i as int].0 == name);
            if !terms[i].0.same(affected) {
                note(&mut list, &terms[i].0, false, in_propagation);
            }
            proof {
                assert forall|k: P::V| #[trigger]
                    listed_counts(list@, k) == after_conflict(
                        listed_counts(before, k),
                        k == affected@,
                        search::mentions(clause.take(i + 1), k),
                        in_propagation,
                    ) by {
                    let shorter = clause.take(i as int);
                    let longer = clause.take(i + 1);
                    assert(longer =~= shorter.push(clause[i as int]));
                    assert(listed_counts(earlier, k) == after_conflict(
                        listed_counts(before, k),
                        k == affected@,
                        search::mentions(shorter, k),
                        in_propagation,
                    ));
                    if search::mentions(shorter, k) {
                        let j = choose|j: int| 0 <= j < shorter.len() && (#[trigger] shorter[j]).0 == k;
                        assert(longer[j].0 == k);
                        assert(clause[j].0 != clause[i as int].0);
                    }
                    if k == name {
                        assert(longer[i as int].0 == k);
                    }
                    if search::mentions(longer, k) && k != name {
                        let j = choose|j: int| 0 <= j < longer.len() && (#[trigger] longer[j]).0 == k;
                        assert(shorter[j].0 == k);
                    }
                }
            }
            i += 1;
        }
        assert(clause.take(i as int) =~= clause);
        self.list = list;
    }
}

/// Note a conflict for the package.
fn note<P: Package>(
    list: &mut Vec<(P, PackageResolutionStatistics)>,
    package: &P,
    affected: bool,
    in_propagation: bool,
)
    requires
        listed_once(old(list)@),
    ensures
        listed_once(final(list)@),
        forall|k: P::V| #[trigger]
            listed_counts(final(list)@, k) == if k == package@ {
                after_conflict(listed_counts(old(list)@, k), affected, !affected, in_propagation)
            } else {
                listed_counts(old(list)@, k)
            },
{
    let ghost before = list@;
    let mut at: usize = 0;
    while at < list.len() && !list[at].0.same(package)
        invariant
            list@ == before,
            at <= list@.len(),
            forall|j: int| 0 <= j < at ==> (#[trigger] list@[j]).0@ != package@,
        decreases list@.len() - at,
    {
        at += 1;
    }
    if at == list.len() {
        list.push((package.duplicate(), PackageResolutionStatistics::new()));
    }
    let ghost extended = list@;
    proof {
        assert(listed_once(extended));
        lemma_listed(extended, at as int);
        if at < before.len() {
            lemma_listed(before, at as int);
        }
    }
    let mut statistics = list[at].1.duplicate();
    if affected {
        if in_propagation {
            statistics.note_propagation_affected();
        } else {
            statistics.note_dependencies_affected();
        }
    } else {
        if in_propagation {
            statistics.note_propagation_culprit();
        } else {
            statistics.note_dependencies_culprit();
        }
    }
    list.set(at, (package.duplicate(), statistics));
    proof {
        let after = list@;
        assert(listed_once(after));
        lemma_listed(after, at as int);
        assert forall|k: P::V| #[trigger] listed_counts(after, k) == if k == package@ {
            after_conflict(listed_counts(before, k), affected, !affected, in_propagation)
        } else {
            listed_counts(before, k)
        } by {
            if k != package@ {
                if is_listed(before, k) {
                    let j = choose|j: int| 0 <= j < before.len() && (#[trigger] before[j]).0@ == k;
                    assert(after[j] == before[j]);
                    lemma_listed(after, j);
                    lemma_listed(before, j);
                } else if is_listed(after, k) {
                    let j = choose|j: int| 0 <= j < after.len() && (#[trigger] after[j]).0@ == k;
                    assert(j != at);
                    assert(before[j].0@ == k);
                }
            }
        }
    }
}

} // verus!
