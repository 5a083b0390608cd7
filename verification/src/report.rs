//! Explanations of failed resolutions.

use std::sync::Arc;

use vstd::prelude::*;

use crate::package::Package;
use crate::search;
use crate::search::Clause;
use crate::term;
use crate::term::Term;
use crate::version_set::VersionSet;

verus! {

/// A fact from outside the solver: a combination of package states that must not occur.
#[derive(Debug, Clone)]
pub enum External<P, VS: VersionSet, M> {
    /// The root package must be selected at the version.
    NotRoot(P, VS::V),
    /// The package has no version in the set.
    NoVersions(P, VS),
    /// The versions of the first package depend on the second package, within the second set.
    FromDependencyOf(P, VS, P, VS),
    /// The versions of the package cannot be used, for the given reason.
    Custom(P, VS, M),
    /// The terms must not hold together, for the given reason.
    Incompatible {
        /// The terms of the clause, that of the declaring package version among them.
        terms: Vec<(P, Term<VS>)>,
        /// The reason that the provider gave.
        reason: M,
    },
    /// The caller ruled out that the terms hold together.
    ExcludedSolution {
        /// The terms that were ruled out.
        terms: Vec<(P, Term<VS>)>,
    },
}

impl<P: Package, VS: VersionSet, M> External<P, VS, M> {
    /// The package states that must not occur together.
    pub open spec fn clause(self) -> Clause<P::V, VS::V> {
        match self {
            External::NotRoot(p, v) => seq![
                (p@, term::selected_in(Set::empty().insert(v)).complement()),
            ],
            External::NoVersions(p, set) => seq![(p@, term::selected_in(set@))],
            External::FromDependencyOf(p, set, q, required) => seq![
                (p@, term::selected_in(set@)),
                (q@, term::selected_in(required@).complement()),
            ],
            External::Custom(p, set, _) => seq![(p@, term::selected_in(set@))],
            External::Incompatible { terms, .. } => term::parts(terms@),
            External::ExcludedSolution { terms } => term::parts(terms@),
        }
    }

    /// The package occurs among terms that the caller ruled out.
    pub open spec fn forces(self, k: P::V) -> bool {
        match self {
            External::ExcludedSolution { terms } => search::mentions(term::parts(terms@), k),
            _ => false,
        }
    }
}

/// A conclusion drawn from two other ones.
#[derive(Debug, Clone)]
pub struct Derived<P, VS: VersionSet, M> {
    /// The terms that cannot hold together.
    pub terms: Vec<(P, Term<VS>)>,
    /// The first of the causes.
    pub cause1: Arc<DerivationTree<P, VS, M>>,
    /// The second of the causes.
    pub cause2: Arc<DerivationTree<P, VS, M>>,
}

/// How the solver concluded that some terms cannot hold together.
#[derive(Debug, Clone)]
pub enum DerivationTree<P, VS: VersionSet, M> {
    /// A fact from outside the solver.
    External(External<P, VS, M>),
    /// A conclusion drawn from two other ones.
    Derived(Derived<P, VS, M>),
}

impl<P: Package, VS: VersionSet, M> DerivationTree<P, VS, M> {
    /// The selection runs into one of the facts that the tree rests on.
    pub open spec fn refutes(self, s: Map<P::V, VS::V>) -> bool
        decreases self,
    {
        match self {
            DerivationTree::External(external) => search::violates(external.clause(), s),
            DerivationTree::Derived(derived) => derived.cause1.refutes(s) || derived.cause2.refutes(
                s,
            ),
        }
    }

    /// The selections that run into one of the facts that the tree rests on.
    pub open spec fn refuted(self) -> Set<Map<P::V, VS::V>> {
        Set::new(|s: Map<P::V, VS::V>| self.refutes(s))
    }

    /// Every fact that the tree rests on is as described.
    pub open spec fn rests_on(self, fact: spec_fn(External<P, VS, M>) -> bool) -> bool
        decreases self,
    {
        match self {
            DerivationTree::External(external) => fact(external),
            DerivationTree::Derived(derived) => derived.cause1.rests_on(fact)
                && derived.cause2.rests_on(fact),
        }
    }

    /// The tree is a single fact.
    pub open spec fn is_fact(self) -> bool {
        self is External
    }

    /// The terms that cannot hold together, as the tree concludes.
    pub open spec fn conclusion(self) -> Clause<P::V, VS::V> {
        match self {
            DerivationTree::External(external) => external.clause(),
            DerivationTree::Derived(derived) => term::parts(derived.terms@),
        }
    }

    /// The conclusion speaks of the package.
    pub open spec fn names(self, k: P::V) -> bool {
        search::speaks_of(self.conclusion(), k)
    }

    /// The fact that the tree is.
    pub open spec fn fact(self) -> External<P, VS, M> {
        self->External_0
    }

    /// Every conclusion in the tree follows from its causes: a selection in which its terms hold
    /// together runs into a fact that one of them rests on.
    pub open spec fn is_sound(self) -> bool
        decreases self,
    {
        match self {
            DerivationTree::External(_) => true,
            DerivationTree::Derived(derived) => {
                &&& derived.cause1.is_sound()
                &&& derived.cause2.is_sound()
                &&& forall|s: Map<P::V, VS::V>| #[trigger]
                    search::violates(term::parts(derived.terms@), s) ==> derived.cause1.refutes(s)
                        || derived.cause2.refutes(s)
            },
        }
    }

    /// The package occurs among terms that the caller ruled out and that the tree rests on.
    pub open spec fn forces(self, k: P::V) -> bool
        decreases self,
    {
        match self {
            DerivationTree::External(external) => external.forces(k),
            DerivationTree::Derived(derived) => derived.cause1.forces(k) || derived.cause2.forces(
                k,
            ),
        }
    }

    /// The package occurs in a fact that the tree rests on.
    pub open spec fn involves(self, k: P::V) -> bool
        decreases self,
    {
        match self {
            DerivationTree::External(external) => search::mentions(external.clause(), k),
            DerivationTree::Derived(derived) => derived.cause1.involves(k)
                || derived.cause2.involves(k),
        }
    }

    /// The packages that occur in the facts that the tree rests on, each of them once.
    pub fn packages(&self) -> (r: Vec<&P>)
        ensures
            forall|k: P::V| #[trigger] listed(r@, k) <==> self.involves(k),
            all_distinct(r@),
    {
        let mut packages: Vec<&P> = Vec::new();
        self.collect_packages(&mut packages);
        packages
    }

    fn collect_packages<'a>(&'a self, packages: &mut Vec<&'a P>)
        requires
            all_distinct(old(packages)@),
        ensures
            forall|k: P::V| #[trigger]
                listed(final(packages)@, k) <==> listed(old(packages)@, k) || self.involves(k),
            all_distinct(final(packages)@),
        decreases self,
    {
        match self {
            DerivationTree::External(external) => match external {
                External::NotRoot(p, _) => {
                    add_package(packages, p);
                    proof {
                        lemma_mentions_one(external.clause());
                    }
                },
                External::NoVersions(p, _) => {
                    add_package(packages, p);
                    proof {
                        lemma_mentions_one(external.clause());
                    }
                },
                External::FromDependencyOf(p, _, q, _) => {
                    add_package(packages, p);
                    add_package(packages, q);
                    proof {
                        lemma_mentions_two(external.clause());
                    }
                },
                External::Custom(p, _, _) => {
                    add_package(packages, p);
                    proof {
                        lemma_mentions_one(external.clause());
                    }
                },
                External::Incompatible { terms, .. } => add_packages(packages, terms),
                External::ExcludedSolution { terms } => add_packages(packages, terms),
            },
            DerivationTree::Derived(derived) => {
                derived.cause1.collect_packages(packages);
                derived.cause2.collect_packages(packages);
            },
        }
    }
}

/// A tree that rests on facts of one kind rests on facts of every wider kind.
pub proof fn lemma_rests_on_wider<P: Package, VS: VersionSet, M>(
    tree: &DerivationTree<P, VS, M>,
    fact: spec_fn(External<P, VS, M>) -> bool,
    wider: spec_fn(External<P, VS, M>) -> bool,
)
    requires
        tree.rests_on(fact),
        forall|e: External<P, VS, M>| #[trigger] fact(e) ==> wider(e),
    ensures
        tree.rests_on(wider),
    decreases tree,
{
    match tree {
        DerivationTree::External(external) => {
            assert(fact(*external));
        },
        DerivationTree::Derived(derived) => {
            lemma_rests_on_wider(&*derived.cause1, fact, wider);
            lemma_rests_on_wider(&*derived.cause2, fact, wider);
        },
    }
}

/// The list holds the package.
pub open spec fn listed<P: Package>(packages: Seq<&P>, k: P::V) -> bool {
    exists|i: int| 0 <= i < packages.len() && (#[trigger] packages[i])@ == k
}

/// No package occurs twice in the list.
pub open spec fn all_distinct<P: Package>(packages: Seq<&P>) -> bool {
    forall|i: int, j: int|
        0 <= i < packages.len() && 0 <= j < packages.len() && i != j ==> (#[trigger] packages[i])@
            != (#[trigger] packages[j])@
}

proof fn lemma_mentions_one<K, V>(clause: Clause<K, V>)
    requires
        clause.len() == 1,
    ensures
        forall|k: K| #[trigger] search::mentions(clause, k) <==> clause[0].0 == k,
{
}

proof fn lemma_mentions_two<K, V>(clause: Clause<K, V>)
    requires
        clause.len() == 2,
    ensures
        forall|k: K| #[trigger]
            search::mentions(clause, k) <==> clause[0].0 == k || clause[1].0 == k,
{
}

fn add_package<'a, P: Package>(packages: &mut Vec<&'a P>, package: &'a P)
    requires
        all_distinct(old(packages)@),
    ensures
        forall|k: P::V| #[trigger]
            listed(final(packages)@, k) <==> listed(old(packages)@, k) || k == package@,
        all_distinct(final(packages)@),
{
    let ghost before = packages@;
    let mut i: usize = 0;
    while i < packages.len()
        invariant
            i <= packages@.len(),
            packages@ == before,
            all_distinct(before),
            forall|j: int| 0 <= j < i ==> (#[trigger] before[j])@ != package@,
        decreases packages@.len() - i,
    {
        if packages[i].same(package) {
            return ;
        }
        i += 1;
    }
    packages.push(package);
    proof {
        assert forall|k: P::V| #[trigger] listed(packages@, k) <==> listed(before, k) || k
            == package@ by {
            if listed(before, k) {
                let j = choose|j: int| 0 <= j < before.len() && (#[trigger] before[j])@ == k;
                assert(packages@[j]@ == k);
            }
            if k == package@ {
                assert(packages@[before.len() as int]@ == k);
            }
            if listed(packages@, k) && k != package@ {
                let j = choose|j: int| 0 <= j < packages@.len() && (#[trigger] packages@[j])@ == k;
                assert(before[j]@ == k);
            }
        }
    }
}

fn add_packages<'a, P: Package, VS: VersionSet>(
    packages: &mut Vec<&'a P>,
    terms: &'a Vec<(P, Term<VS>)>,
)
    requires
        all_distinct(old(packages)@),
    ensures
        forall|k: P::V| #[trigger]
            listed(final(packages)@, k) <==> listed(old(packages)@, k) || search::mentions(
                term::parts(terms@),
                k,
            ),
        all_distinct(final(packages)@),
{
    let ghost before = packages@;
    let ghost clause = term::parts(terms@);
    let mut i: usize = 0;
    while i < terms.len()
        invariant
            i <= terms.len(),
            clause == term::parts(terms@),
            forall|k: P::V| #[trigger]
                listed(packages@, k) <==> listed(before, k) || search::mentions(
                    clause.take(i as int),
                    k,
                ),
            all_distinct(packages@),
        decreases terms.len() - i,
    {
        let ghost prefix = packages@;
        add_package(packages, &terms[i].0);
        proof {
            assert forall|k: P::V| #[trigger] listed(packages@, k) <==> listed(before, k)
                || search::mentions(clause.take(i + 1), k) by {
                lemma_mentions_take(clause, i as int, k);
                assert(listed(packages@, k) <==> listed(prefix, k) || k == terms@[i as int].0@);
            }
        }
        i += 1;
    }
    assert(clause.take(i as int) =~= clause);
}

proof fn lemma_mentions_take<K, V>(clause: Clause<K, V>, i: int, k: K)
    requires
        0 <= i < clause.len(),
    ensures
        search::mentions(clause.take(i + 1), k) <==> search::mentions(clause.take(i), k)
            || clause[i].0 == k,
{
    let shorter = clause.take(i);
    let longer = clause.take(i + 1);
    if search::mentions(shorter, k) {
        let j = choose|j: int| 0 <= j < shorter.len() && (#[trigger] shorter[j]).0 == k;
        assert(longer[j].0 == k);
    }
    if clause[i].0 == k {
        assert(longer[i].0 == k);
    }
    if search::mentions(longer, k) {
        let j = choose|j: int| 0 <= j < longer.len() && (#[trigger] longer[j]).0 == k;
        if j < i {
            assert(shorter[j].0 == k);
        }
    }
}

/// Adds to `packages` the packages that occur among the terms which the caller ruled out and which
/// the tree rests on.
pub fn collect_forced_packages<'a, P: Package, VS: VersionSet, M>(
    tree: &'a DerivationTree<P, VS, M>,
    packages: &mut Vec<&'a P>,
)
    requires
        all_distinct(old(packages)@),
    ensures
        forall|k: P::V| #[trigger]
            listed(final(packages)@, k) <==> listed(old(packages)@, k) || tree.forces(k),
        all_distinct(final(packages)@),
    decreases tree,
{
    match tree {
        DerivationTree::External(External::ExcludedSolution { terms }) => {
            add_packages(packages, terms);
        },
        DerivationTree::Derived(derived) => {
            collect_forced_packages(&derived.cause1, packages);
            collect_forced_packages(&derived.cause2, packages);
        },
        DerivationTree::External(_) => {},
    }
}

} // verus!
