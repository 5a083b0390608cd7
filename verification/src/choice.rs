//! What the search has to do next.

use vstd::prelude::*;

use crate::machine;
use crate::machine::Next;
use crate::package::Package;
use crate::problem;
use crate::search;
use crate::state;
use crate::state::{Relation, State};
use crate::term;
use crate::term::Term;
use crate::version::Version;
use crate::version_set::VersionSet;

verus! {

/// What to do where no package is left that must be selected.
pub enum Unmet<P, VS> {
    /// An incompatibility about the package calls for a step.
    Propagate(P),
    /// An incompatibility holds unless the package is selected at one of the versions.
    Package(P, VS),
    /// No incompatibility is met.
    Nothing,
}

/// The packages of the candidates.
pub open spec fn candidate_keys<P: Package, VS>(candidates: Seq<(P, VS)>) -> Seq<P::V> {
    Seq::new(candidates.len(), |j: int| candidates[j].0@)
}

/// What there is to do, as far as it can be told.
pub open spec fn told_as<P: Package, VS: VersionSet>(unmet: Unmet<P, VS>) -> Next<P::V, VS::V> {
    match unmet {
        Unmet::Propagate(p) => Next::Propagate(p@),
        Unmet::Package(p, set) => Next::Choose(p@, set@),
        Unmet::Nothing => Next::Nothing,
    }
}

impl<P: Package, VS: VersionSet, M> State<P, VS, M> {
    /// The decided packages are those that the trail tells.
    pub proof fn lemma_selected(self)
        requires
            self.ok(),
        ensures
            state::selection(self.trail@) == machine::selected(self.entries()),
    {
        let s = state::selection(self.trail@);
        let told = machine::selected(self.entries());
        assert forall|k: P::V| #![trigger s.dom().contains(k)]
            s.dom().contains(k) == told.dom().contains(k) && (s.dom().contains(k) ==> s[k]
                == told[k]) by {
            state::lemma_selection(self.atoms@, self.clauses(), self.trail@, k);
            if s.dom().contains(k) {
                let open = search::open_states(self.entries(), k);
                assert(term::only(s[k]).contains(Some(s[k])));
                assert(open.contains(Some(s[k])));
                let v = choose|v: VS::V| #[trigger] open.contains(Some(v));
                assert(term::only(s[k]).contains(Some(v)));
                assert(v == s[k]);
            }
        }
        assert(s =~= told);
    }

    /// The package is undecided, and the set is part of what is left open for it.
    pub open spec fn may_choose(self, k: P::V, set: Set<VS::V>) -> bool {
        &&& search::mentions(self.atoms@, k)
        &&& !search::decided(self.entries(), k)
        &&& set != Set::<VS::V>::empty()
        &&& term::selected_in(set).subset_of(search::open_states(self.entries(), k))
        &&& search::respects(self.atoms@, k, term::selected_in(set))
    }

    /// The package must be selected and is not decided yet.
    pub open spec fn is_pending(self, k: P::V) -> bool {
        &&& !search::decided(self.entries(), k)
        &&& !search::open_states(self.entries(), k).contains(None)
    }

    /// The versions that are left open for the package.
    pub open spec fn open_versions(self, k: P::V) -> Set<VS::V> {
        Set::new(|v: VS::V| search::open_states(self.entries(), k).contains(Some(v)))
    }

    /// Every package that must be selected is decided.
    pub open spec fn all_chosen(self) -> bool {
        forall|k: P::V|
            !#[trigger] search::open_states(self.entries(), k).contains(None) ==> search::decided(
                self.entries(),
                k,
            )
    }

    /// Every package that must be selected is decided, and some incompatibility is met, but none of
    /// those calls for a step.
    pub open spec fn is_stuck(self) -> bool {
        &&& self.all_chosen()
        &&& exists|i: int|
            0 <= i < self.clauses().len() && search::violates(
                #[trigger] self.clauses()[i],
                state::selection(self.trail@),
            )
        &&& forall|i: int|
            0 <= i < self.clauses().len() && search::violates(
                #[trigger] self.clauses()[i],
                state::selection(self.trail@),
            ) ==> forall|k: P::V| !#[trigger] self.pressing(i, k)
    }

    /// An incompatibility that is met, where only one of its packages may be absent, calls for a
    /// step.
    pub proof fn lemma_definite_presses(
        self,
        base: search::Clause<P::V, VS::V>,
        i: int,
    ) -> (k: P::V)
        requires
            self.ok(),
            self.all_chosen(),
            problem::is_definite(base),
            0 <= i < self.clauses().len(),
            problem::covered_by(base, self.clauses()[i]),
            search::violates(base, state::selection(self.trail@)),
        ensures
            self.pressing(i, k),
    {
        let s = state::selection(self.trail@);
        let clause = self.clauses()[i];
        let trail = self.entries();
        assert(search::clause_ok(self.atoms@, clause));
        assert(search::violates(clause, s));
        assert(clause.len() > 0);
        assert forall|m: int|
            0 <= m < clause.len() && search::decided(
                trail,
                (#[trigger] clause[m]).0,
            ) implies search::open_states(trail, clause[m].0).subset_of(clause[m].1) by {
            let p = clause[m].0;
            state::lemma_selection(self.atoms@, self.clauses(), self.trail@, p);
            assert(clause[m].1.contains(s.get(p)));
            assert(s.get(p) == Some(s[p]));
        }
        assert forall|m: int|
            0 <= m < clause.len() && !search::decided(
                trail,
                (#[trigger] clause[m]).0,
            ) implies exists|b: int|
            0 <= b < base.len() && (#[trigger] base[b]).0 == clause[m].0 && base[b].1.contains(
                None,
            ) by {
            let p = clause[m].0;
            state::lemma_selection(self.atoms@, self.clauses(), self.trail@, p);
            assert(s.get(p) is None);
            if forall|b: int| 0 <= b < base.len() ==> (#[trigger] base[b]).0 != p {
                assert forall|x: Option<VS::V>| #[trigger] clause[m].1.contains(x) by {
                    let other = match x {
                        Some(v) => s.insert(p, v),
                        None => s,
                    };
                    assert(other.get(p) == x);
                    assert forall|b: int| 0 <= b < base.len() implies (
                    #[trigger] base[b]).1.contains(other.get(base[b].0)) by {
                        assert(base[b].0 != p);
                        assert(other.get(base[b].0) == s.get(base[b].0));
                        assert(base[b].1.contains(s.get(base[b].0)));
                    }
                    assert(search::violates(base, other));
                    assert(search::violates(clause, other));
                }
                assert(clause[m].1 =~= Set::full());
            }
            let b = choose|b: int| 0 <= b < base.len() && (#[trigger] base[b]).0 == p;
            assert(base[b].1.contains(s.get(base[b].0)));
        }
        let open = exists|m: int|
            0 <= m < clause.len() && !search::decided(trail, (#[trigger] clause[m]).0);
        let at = if open {
            choose|m: int|
                0 <= m < clause.len() && !search::decided(trail, (#[trigger] clause[m]).0)
        } else {
            0
        };
        let k = clause[at].0;
        search::lemma_at(clause, at);
        assert(search::satisfied_except(clause, trail, k)) by {
            assert forall|m: int|
                0 <= m < clause.len() && (#[trigger] clause[m]).0 != k implies search::open_states(
                trail,
                clause[m].0,
            ).subset_of(clause[m].1) by {
                if !search::decided(trail, clause[m].0) {
                    let a = choose|b: int|
                        0 <= b < base.len() && (#[trigger] base[b]).0 == clause[m].0
                            && base[b].1.contains(None);
                    let c = choose|b: int|
                        0 <= b < base.len() && (#[trigger] base[b]).0 == clause[at].0
                            && base[b].1.contains(None);
                    assert(base[a].0 == base[c].0);
                }
            }
        }
        state::lemma_selection(self.atoms@, self.clauses(), self.trail@, k);
        assert(clause[at].1.contains(s.get(k)));
        assert(search::open_states(trail, k).contains(s.get(k))) by {
            if search::decided(trail, k) {
                assert(s.get(k) == Some(s[k]));
            }
        }
        assert(search::mentions(clause, k));
        k
    }

    /// The version that was decided on for the package.
    pub fn chosen(&self, package: &P) -> (r: Option<VS::V>)
        requires
            self.ok(),
        ensures
            r == state::selection(self.trail@).get(package@),
    {
        let mut n = self.trail.len();
        assert(self.trail@.take(n as int) =~= self.trail@);
        while n > 0
            invariant
                n <= self.trail@.len(),
                state::decisions_ok(self.trail@),
                state::selection(self.trail@).get(package@) == state::selection(
                    self.trail@.take(n as int),
                ).get(package@),
            decreases n,
        {
            assert(self.trail@.take(n as int).drop_last() =~= self.trail@.take(n - 1));
            n -= 1;
            if self.trail[n].cause.is_none() && self.trail[n].package.same(package) {
                match &self.trail[n].version {
                    Some(version) => {
                        return Some(version.duplicate());
                    },
                    None => {},
                }
            }
        }
        None
    }

    /// Whether the incompatibility is met by the decided packages, with all others absent.
    fn met(&self, i: usize) -> (r: bool)
        requires
            self.ok(),
            i < self.store@.len(),
        ensures
            r == search::violates(self.clauses()[i as int], state::selection(self.trail@)),
    {
        let ghost clause = self.clauses()[i as int];
        let ghost s = state::selection(self.trail@);
        let terms = &self.store[i].terms;
        let mut j: usize = 0;
        while j < terms.len()
            invariant
                self.ok(),
                s == state::selection(self.trail@),
                i < self.store@.len(),
                clause == self.clauses()[i as int],
                clause == term::parts(terms@),
                j <= terms@.len(),
                forall|m: int|
                    0 <= m < j ==> (#[trigger] clause[m]).1.contains(s.get(clause[m].0)),
            decreases terms@.len() - j,
        {
            assert(clause[j as int] == (terms@[j as int].0@, terms@[j as int].1@));
            let holds = match self.chosen(&terms[j].0) {
                Some(version) => terms[j].1.contains(&version),
                None => match &terms[j].1 {
                    Term::Positive(_) => false,
                    Term::Negative(_) => true,
                },
            };
            if !holds {
                return false;
            }
            j += 1;
        }
        true
    }

    /// The packages that must be selected and are not decided yet, with what is left open for them,
    /// in the order in which the search came across them.
    pub fn candidates(&self) -> (r: Vec<(P, VS)>)
        requires
            self.ok(),
        ensures
            forall|i: int|
                0 <= i < r@.len() ==> self.may_choose((#[trigger] r@[i]).0@, r@[i].1@)
                    && self.is_pending(r@[i].0@) && r@[i].1@ == self.open_versions(r@[i].0@),
            forall|k: P::V|
                #[trigger] self.is_pending(k) ==> exists|i: int|
                    0 <= i < r@.len() && (#[trigger] r@[i]).0@ == k,
            candidate_keys(r@) == machine::pending(
                self.entries(),
                self.entries().len() as int,
            ),
    {
        let n = self.trail.len();
        let ghost trail = self.entries();
        assert(trail.take(n as int) =~= trail);
        let mut found: Vec<(P, VS)> = Vec::new();
        let mut i: usize = 0;
        assert(candidate_keys(found@) =~= machine::pending(trail, 0));
        while i < n
            invariant
                candidate_keys(found@) == machine::pending(trail, i as int),
                self.ok(),
                n == self.trail@.len(),
                trail == self.entries(),
                trail.take(n as int) == trail,
                i <= n,
                forall|j: int|
                    0 <= j < found@.len() ==> self.may_choose(
                        (#[trigger] found@[j]).0@,
                        found@[j].1@,
                    ) && self.is_pending(found@[j].0@) && found@[j].1@ == self.open_versions(
                        found@[j].0@,
                    ),
                forall|j: int|
                    0 <= j < i && !search::decided(trail, (#[trigger] trail[j]).key)
                        && !search::open_states(trail, trail[j].key).contains(None) ==> exists|m: int|
                        0 <= m < found@.len() && (#[trigger] found@[m]).0@ == trail[j].key,
            decreases n - i,
        {
            let package = &self.trail[i].package;
            let ghost before = found@;
            let ghost k = package@;
            proof {
                state::lemma_selection(self.atoms@, self.clauses(), self.trail@, k);
                search::lemma_trail_entry(self.atoms@, self.clauses(), trail, i as int);
            }
            if self.chosen(package).is_none() && !holds_candidate(&found, package) {
                let term = self.open_term(n, package);
                match term {
                    Term::Positive(set) => {
                        proof {
                            search::lemma_open_states_nonempty(
                                self.atoms@,
                                self.clauses(),
                                trail,
                                k,
                            );
                            search::lemma_open_states_kind(self.atoms@, self.clauses(), trail, k);
                            assert(term::selected_in(set@) == search::open_states(trail, k));
                            assert(set@ =~= self.open_versions(k)) by {
                                assert forall|v: VS::V| #[trigger]
                                    set@.contains(v) == self.open_versions(k).contains(v) by {
                                    assert(term::selected_in(set@).contains(Some(v))
                                        == set@.contains(v));
                                }
                            }
                            assert(set@ != Set::<VS::V>::empty()) by {
                                if set@ == Set::<VS::V>::empty() {
                                    assert(term::selected_in(set@) =~= Set::empty());
                                }
                            }
                        }
                        let copy = set.duplicate();
                        found.push((package.duplicate(), copy));
                        proof {
                            assert(candidate_keys(found@) =~= candidate_keys(before).push(k));
                            if candidate_keys(before).contains(k) {
                                let c = choose|c: int|
                                    0 <= c < candidate_keys(before).len() && candidate_keys(
                                        before,
                                    )[c] == k;
                                assert(before[c].0@ == k);
                            }
                            assert(!term::selected_in(set@).contains(None));
                        }
                        assert(found@[before.len() as int].0@ == k);
                    },
                    Term::Negative(set) => {
                        assert(search::open_states(trail, k).contains(None));
                    },
                }
            } else {
                proof {
                    if !search::decided(trail, k) {
                        let c = choose|c: int|
                            0 <= c < before.len() && (#[trigger] before[c]).0@ == k;
                        assert(candidate_keys(before)[c] == k);
                    }
                }
            }
            proof {
                assert forall|j: int|
                    0 <= j < i + 1 && !search::decided(trail, (#[trigger] trail[j]).key)
                        && !search::open_states(trail, trail[j].key).contains(None) implies exists|
                    m: int,
                |
                    0 <= m < found@.len() && (#[trigger] found@[m]).0@ == trail[j].key by {
                    if j < i {
                        let m = choose|m: int|
                            0 <= m < before.len() && (#[trigger] before[m]).0@ == trail[j].key;
                        assert(found@[m] == before[m]);
                    }
                }
            }
            i += 1;
        }
        proof {
            assert forall|k: P::V| #[trigger] self.is_pending(k) implies exists|i: int|
                0 <= i < found@.len() && (#[trigger] found@[i]).0@ == k by {
                let j = lemma_on_trail(trail, k);
                assert(trail[j].key == k);
            }
        }
        found
    }

    /// What to do where no package is left that must be selected.
    pub fn unmet(&self) -> (r: Unmet<P, VS>)
        requires
            self.ok(),
        ensures
            r matches Unmet::Propagate(p) ==> self.calls_for_step(p@),
            r matches Unmet::Package(p, set) ==> self.may_choose(p@, set@),
            r is Nothing ==> forall|i: int|
                0 <= i < self.clauses().len() ==> !search::violates(
                    #[trigger] self.clauses()[i],
                    state::selection(self.trail@),
                ),
            r is Package && self.all_chosen() ==> self.is_stuck(),
            told_as(r) == machine::unmet(self.clauses(), self.entries(), 0, None),
    {
        let ghost s = state::selection(self.trail@);
        let ghost trail = self.entries();
        proof {
            self.lemma_selected();
        }
        let mut open: Option<usize> = None;
        let mut i: usize = 0;
        while i < self.store.len()
            invariant
                self.ok(),
                s == state::selection(self.trail@),
                s == machine::selected(trail),
                machine::unmet(self.clauses(), trail, 0, None) == machine::unmet(
                    self.clauses(),
                    trail,
                    i as int,
                    match open {
                        Some(o) => Some(o as int),
                        None => None,
                    },
                ),
                trail == self.entries(),
                i <= self.store@.len(),
                match open {
                    Some(o) => {
                        &&& o < self.store@.len()
                        &&& search::violates(self.clauses()[o as int], s)
                        &&& !search::satisfied(self.clauses()[o as int], trail)
                    },
                    None => forall|j: int|
                        0 <= j < i ==> !search::violates(#[trigger] self.clauses()[j], s),
                },
                forall|j: int|
                    0 <= j < i && search::violates(#[trigger] self.clauses()[j], s)
                        ==> forall|k: P::V| !#[trigger] self.pressing(j, k),
            decreases self.store@.len() - i,
        {
            let ghost clause = self.clauses()[i as int];
            if self.met(i) {
                assert(clause == term::parts(self.store@[i as int].terms@));
                assert(search::clause_ok(self.atoms@, clause));
                match self.relation(i) {
                    Relation::Satisfied => {
                        let package = self.store[i].terms[0].0.duplicate();
                        proof {
                            search::lemma_at(clause, 0);
                            search::lemma_satisfied_at(clause, trail, package@);
                            search::lemma_open_states_nonempty(
                                self.atoms@,
                                self.clauses(),
                                trail,
                                package@,
                            );
                            let set = search::open_states(trail, package@);
                            assert(exists|x: Option<VS::V>| set.contains(x)) by {
                                if forall|x: Option<VS::V>| !set.contains(x) {
                                    assert(set =~= Set::empty());
                                }
                            }
                            assert(self.pressing(i as int, package@));
                            assert(self.calls_for_step(package@));
                        }
                        return Unmet::Propagate(package);
                    },
                    Relation::AlmostSatisfied(j) => {
                        let package = self.store[i].terms[j].0.duplicate();
                        proof {
                            search::lemma_at(clause, j as int);
                            assert(self.pressing(i as int, package@));
                            assert(self.calls_for_step(package@));
                        }
                        return Unmet::Propagate(package);
                    },
                    Relation::Inconclusive => {
                        open = Some(i);
                    },
                }
            }
            i += 1;
        }
        match open {
            None => Unmet::Nothing,
            Some(o) => {
                assert(search::violates(self.clauses()[o as int], s));
                let (package, set) = self.way_out(o);
                Unmet::Package(package, set)
            },
        }
    }

    /// A package, and versions of it with which the incompatibility is not met.
    fn way_out(&self, o: usize) -> (r: (P, VS))
        requires
            self.ok(),
            o < self.store@.len(),
            search::violates(self.clauses()[o as int], state::selection(self.trail@)),
            !search::satisfied(self.clauses()[o as int], self.entries()),
        ensures
            self.may_choose(r.0@, r.1@),
            (r.0@, r.1@) == machine::way_out(self.clauses()[o as int], self.entries(), 0),
    {
        let n = self.trail.len();
        let ghost trail = self.entries();
        let ghost s = state::selection(self.trail@);
        let ghost clause = self.clauses()[o as int];
        assert(trail.take(n as int) =~= trail);
        let terms = &self.store[o].terms;
        let mut j: usize = 0;
        let mut found: Option<(P, VS)> = None;
        while j < terms.len() && found.is_none()
            invariant
                self.ok(),
                n == self.trail@.len(),
                trail == self.entries(),
                s == state::selection(self.trail@),
                trail.take(n as int) == trail,
                o < self.store@.len(),
                clause == self.clauses()[o as int],
                clause == term::parts(terms@),
                search::violates(clause, s),
                j <= terms@.len(),
                machine::way_out(clause, trail, 0) == match found {
                    Some(pair) => (pair.0@, pair.1@),
                    None => machine::way_out(clause, trail, j as int),
                },
                match found {
                    Some(pair) => self.may_choose(pair.0@, pair.1@),
                    None => forall|m: int|
                        0 <= m < j ==> search::open_states(
                            trail,
                            (#[trigger] clause[m]).0,
                        ).subset_of(clause[m].1),
                },
            decreases terms@.len() - j,
        {
            let ghost k = clause[j as int].0;
            let open = self.open_term(n, &terms[j].0);
            assert(clause[j as int] == (terms@[j as int].0@, terms@[j as int].1@));
            if !open.subset_of(&terms[j].1) {
                let outside = open.intersection(&terms[j].1.negate());
                proof {
                    state::lemma_selection(self.atoms@, self.clauses(), self.trail@, k);
                    assert(clause[j as int].1.contains(s.get(k)));
                    assert(!search::decided(trail, k)) by {
                        if search::decided(trail, k) {
                            let v = s[k];
                            assert(s.get(k) == Some(v));
                            assert forall|x: Option<VS::V>| search::open_states(trail, k).contains(
                                x,
                            ) implies clause[j as int].1.contains(x) by {
                                assert(x == Some(v));
                            }
                        }
                    }
                    assert(s.get(k) is None);
                    assert(!outside@.contains(None));
                    assert(search::clause_ok(self.atoms@, clause));
                    search::lemma_open_states_kind(self.atoms@, self.clauses(), trail, k);
                    search::lemma_respects_ops(
                        self.atoms@,
                        k,
                        search::open_states(trail, k),
                        clause[j as int].1,
                    );
                }
                match outside {
                    Term::Positive(set) => {
                        proof {
                            let x = choose|x: Option<VS::V>|
                                search::open_states(trail, k).contains(x)
                                    && !clause[j as int].1.contains(x);
                            assert(outside@.contains(x));
                            assert(set@.contains(x->0));
                            assert(term::selected_in(set@) == search::open_states(
                                trail,
                                k,
                            ).intersect(clause[j as int].1.complement()));
                        }
                        found = Some((terms[j].0.duplicate(), set.duplicate()));
                        proof {
                            let open = search::open_states(trail, k);
                            let part = clause[j as int].1;
                            assert(set@ =~= Set::new(
                                |v: VS::V| open.contains(Some(v)) && !part.contains(Some(v)),
                            )) by {
                                assert forall|v: VS::V| set@.contains(v) == (open.contains(Some(v))
                                    && !part.contains(Some(v))) by {
                                    assert(term::selected_in(set@).contains(Some(v))
                                        == set@.contains(v));
                                }
                            }
                        }
                    },
                    Term::Negative(set) => {
                        assert(outside@.contains(None));
                        assert(false);
                    },
                }
            }
            j += 1;
        }
        match found {
            Some(pair) => pair,
            None => {
                assert(false);
                (terms[0].0.duplicate(), VS::empty())
            },
        }
    }
}

/// Whether the package is among the candidates.
fn holds_candidate<P: Package, VS>(candidates: &Vec<(P, VS)>, package: &P) -> (r: bool)
    ensures
        r == exists|i: int| 0 <= i < candidates@.len() && (#[trigger] candidates@[i]).0@ == package@,
{
    let mut i: usize = 0;
    while i < candidates.len()
        invariant
            i <= candidates@.len(),
            forall|j: int| 0 <= j < i ==> (#[trigger] candidates@[j]).0@ != package@,
        decreases candidates@.len() - i,
    {
        if candidates[i].0.same(package) {
            return true;
        }
        i += 1;
    }
    false
}

/// A package that is not open in every state occurs on the trail.
proof fn lemma_on_trail<K, V>(trail: Seq<search::Entry<K, V>>, k: K) -> (j: int)
    requires
        !search::open_states(trail, k).contains(None),
    ensures
        0 <= j < trail.len(),
        trail[j].key == k,
    decreases trail.len(),
{
    if trail.last().key == k {
        trail.len() - 1
    } else {
        lemma_on_trail(trail.drop_last(), k)
    }
}

} // verus!
