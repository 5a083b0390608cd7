//! Statistics on conflicts.

use vstd::prelude::*;

verus! {

/// Statistics on how often a package conflicted with other packages.
#[derive(Debug, Default, Clone)]
pub struct PackageResolutionStatistics {
    // The counts are kept apart to allow for other combinations of them.
    //
    // Say we have packages A and B, A having higher priority than B. We first decide A and then B,
    // and then find B to conflict with A. We call B "affected" and A "culprit" since the decision
    // for B is being rejected due to the decision we made for A earlier.
    unit_propagation_affected: u32,
    unit_propagation_culprit: u32,
    dependencies_affected: u32,
    dependencies_culprit: u32,
}

/// One more, up to what a count can hold.
pub open spec fn counted(n: u32) -> u32 {
    if n == u32::MAX {
        n
    } else {
        (n + 1) as u32
    }
}

fn count(n: u32) -> (r: u32)
    ensures
        r == counted(n),
{
    if n == u32::MAX {
        n
    } else {
        n + 1
    }
}

impl PackageResolutionStatistics {
    /// The four counts: affected and culprit in unit propagation, then in adding dependencies.
    pub closed spec fn counts(self) -> (u32, u32, u32, u32) {
        (
            self.unit_propagation_affected,
            self.unit_propagation_culprit,
            self.dependencies_affected,
            self.dependencies_culprit,
        )
    }

    /// The sum of the counts.
    pub open spec fn total(self) -> int {
        self.counts().0 + self.counts().1 + self.counts().2 + self.counts().3
    }

    /// Statistics of a package without any conflict.
    pub fn new() -> (r: Self)
        ensures
            r.counts() == (0u32, 0u32, 0u32, 0u32),
    {
        PackageResolutionStatistics {
            unit_propagation_affected: 0,
            unit_propagation_culprit: 0,
            dependencies_affected: 0,
            dependencies_culprit: 0,
        }
    }

    /// The same statistics.
    pub fn duplicate(&self) -> (r: Self)
        ensures
            r.counts() == self.counts(),
    {
        PackageResolutionStatistics {
            unit_propagation_affected: self.unit_propagation_affected,
            unit_propagation_culprit: self.unit_propagation_culprit,
            dependencies_affected: self.dependencies_affected,
            dependencies_culprit: self.dependencies_culprit,
        }
    }

    /// The number of conflicts this package was involved in.
    ///
    /// Processing packages with a high conflict count earlier usually speeds up resolution.
    ///
    /// Whenever a package is part of the root cause incompatibility of a conflict, we increase its
    /// count by one. Since the structure of the incompatibilities may change, this count too may
    /// change in the future.
    pub fn conflict_count(&self) -> (r: u32)
        requires
            self.total() <= u32::MAX,
        ensures
            r == self.total(),
    {
        self.unit_propagation_affected + self.unit_propagation_culprit + self.dependencies_affected
            + self.dependencies_culprit
    }

    /// The conflict count, or the largest count where the sum exceeds it.
    pub fn saturating_conflict_count(&self) -> (r: u32)
        ensures
            r as int == if self.total() <= u32::MAX {
                self.total()
            } else {
                u32::MAX as int
            },
    {
        let sum: u64 = self.unit_propagation_affected as u64 + self.unit_propagation_culprit as u64
            + self.dependencies_affected as u64 + self.dependencies_culprit as u64;
        if sum <= u32::MAX as u64 {
            self.conflict_count()
        } else {
            u32::MAX
        }
    }

    /// Note that the package was affected by a conflict in unit propagation.
    pub fn note_propagation_affected(&mut self)
        ensures
            final(self).counts() == (
                counted(old(self).counts().0),
                old(self).counts().1,
                old(self).counts().2,
                old(self).counts().3,
            ),
    {
        self.unit_propagation_affected = count(self.unit_propagation_affected);
    }

    /// Note that the package was the culprit of a conflict in unit propagation.
    pub fn note_propagation_culprit(&mut self)
        ensures
            final(self).counts() == (
                old(self).counts().0,
                counted(old(self).counts().1),
                old(self).counts().2,
                old(self).counts().3,
            ),
    {
        self.unit_propagation_culprit = count(self.unit_propagation_culprit);
    }

    /// Note that the package was affected by a conflict of its dependencies.
    pub fn note_dependencies_affected(&mut self)
        ensures
            final(self).counts() == (
                old(self).counts().0,
                old(self).counts().1,
                counted(old(self).counts().2),
                old(self).counts().3,
            ),
    {
        self.dependencies_affected = count(self.dependencies_affected);
    }

    /// Note that the package was the culprit of a conflict of another package's dependencies.
    pub fn note_dependencies_culprit(&mut self)
        ensures
            final(self).counts() == (
                old(self).counts().0,
                old(self).counts().1,
                old(self).counts().2,
                counted(old(self).counts().3),
            ),
    {
        self.dependencies_culprit = count(self.dependencies_culprit);
    }
}

} // verus!
