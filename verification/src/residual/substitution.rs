//! Lifting an observed improvement to all solutions that it improves.
//!
//! One solution improves on another at some projected package. Carrying over the improved version,
//! together with whatever else must change for it, improves every solution in a region around the
//! worse one, so that no solution in that region is maximal.

use vstd::prelude::*;

use super::partition;
use super::ConstraintModel;
use crate::ordering;
use crate::ordering::Precedence;
use crate::package;
use crate::package::{holds_package, Package};
use crate::problem;
use crate::residual;
use crate::search;
use crate::search::Clause;
use crate::selected::SelectedDependencies;
use crate::term;
use crate::term::Term;
use crate::version_set::VersionSet;

verus! {

/// The clause speaks of one of the packages.
pub open spec fn touches<K, V>(rule: Clause<K, V>, changed: Set<K>) -> bool {
    exists|i: int| 0 <= i < rule.len() && changed.contains((#[trigger] rule[i]).0)
}

/// The new state of one of the packages keeps the clause from being violated.
pub open spec fn is_replaced<K, V>(
    rule: Clause<K, V>,
    changed: Set<K>,
    after: Map<K, V>,
) -> bool {
    exists|i: int|
        0 <= i < rule.len() && changed.contains((#[trigger] rule[i]).0) && !rule[i].1.contains(
            after.get(rule[i].0),
        )
}

/// The old state of a projected package that does not change keeps the clause from being violated.
pub open spec fn may_guard<K, V>(
    rule: Clause<K, V>,
    changed: Set<K>,
    projected: Set<K>,
    before: Map<K, V>,
    i: int,
) -> bool {
    &&& 0 <= i < rule.len()
    &&& !changed.contains(rule[i].0)
    &&& projected.contains(rule[i].0)
    &&& !rule[i].1.contains(before.get(rule[i].0))
}

/// The part is the first one that may guard the clause.
pub open spec fn is_guard<K, V>(
    rule: Clause<K, V>,
    changed: Set<K>,
    projected: Set<K>,
    before: Map<K, V>,
    i: int,
) -> bool {
    &&& may_guard(rule, changed, projected, before, i)
    &&& forall|j: int| 0 <= j < i ==> !#[trigger] may_guard(rule, changed, projected, before, j)
}

/// What changes and the guards keep the clause from being violated.
pub open spec fn is_held<K, V>(
    rule: Clause<K, V>,
    changed: Set<K>,
    projected: Set<K>,
    before: Map<K, V>,
    after: Map<K, V>,
) -> bool {
    ||| is_replaced(rule, changed, after)
    ||| exists|i: int| #[trigger] may_guard(rule, changed, projected, before, i)
}

/// Changing the package as well would keep the clause from being violated.
pub open spec fn may_replace<K, V>(
    rule: Clause<K, V>,
    changed: Set<K>,
    after: Map<K, V>,
    i: int,
) -> bool {
    &&& 0 <= i < rule.len()
    &&& !changed.contains(rule[i].0)
    &&& !rule[i].1.contains(after.get(rule[i].0))
}

/// Packages outside the projection come first, then those that fewer clauses speak of.
pub open spec fn is_cheaper<K, V>(
    rules: Seq<Clause<K, V>>,
    projected: Set<K>,
    a: K,
    b: K,
) -> bool {
    if projected.contains(a) != projected.contains(b) {
        projected.contains(b)
    } else {
        residual::frequency(rules, a) < residual::frequency(rules, b)
    }
}

/// The part is about the cheapest package whose change helps, and the first such part.
pub open spec fn is_replacement<K, V>(
    rules: Seq<Clause<K, V>>,
    projected: Set<K>,
    rule: Clause<K, V>,
    changed: Set<K>,
    after: Map<K, V>,
    i: int,
) -> bool {
    &&& may_replace(rule, changed, after, i)
    &&& forall|j: int| #[trigger]
        may_replace(rule, changed, after, j) ==> {
            &&& !is_cheaper(rules, projected, rule[j].0, rule[i].0)
            &&& j < i ==> is_cheaper(rules, projected, rule[i].0, rule[j].0)
        }
}

/// A clause that nothing holds calls for the change of one more package.
pub open spec fn extends<K, V>(
    rules: Seq<Clause<K, V>>,
    projected: Set<K>,
    before: Map<K, V>,
    after: Map<K, V>,
    changed: Set<K>,
    more: Set<K>,
) -> bool {
    exists|c: int, i: int|
        0 <= c < rules.len() && touches(rules[c], changed) && !is_held(
            rules[c],
            changed,
            projected,
            before,
            after,
        ) && #[trigger] is_replacement(rules, projected, rules[c], changed, after, i) && more
            == changed.insert(rules[c][i].0)
}

/// So many clauses called for changes.
pub open spec fn extends_in<K, V>(
    rules: Seq<Clause<K, V>>,
    projected: Set<K>,
    before: Map<K, V>,
    after: Map<K, V>,
    changed: Set<K>,
    more: Set<K>,
    steps: nat,
) -> bool
    decreases steps,
{
    if steps == 0 {
        changed == more
    } else {
        exists|m: Set<K>|
            extends_in(rules, projected, before, after, changed, m, (steps - 1) as nat)
                && #[trigger] extends(rules, projected, before, after, m, more)
    }
}

/// Changing the package calls for changing these, and no others.
pub open spec fn is_closure<K, V>(
    rules: Seq<Clause<K, V>>,
    projected: Set<K>,
    before: Map<K, V>,
    after: Map<K, V>,
    seed: K,
    changed: Set<K>,
) -> bool {
    &&& exists|steps: nat| #[trigger]
        extends_in(
            rules,
            projected,
            before,
            after,
            Set::empty().insert(seed),
            changed,
            steps,
        )
    &&& forall|c: int|
        0 <= c < rules.len() && touches(#[trigger] rules[c], changed) ==> is_held(
            rules[c],
            changed,
            projected,
            before,
            after,
        )
}

/// The states of a package that its new state does not fall short of. At the package that is
/// improved, its new version is an upgrade.
pub open spec fn bound<K, V>(
    equal: spec_fn(V) -> Set<V>,
    higher: spec_fn(V) -> Set<V>,
    after: Map<K, V>,
    seed: K,
    k: K,
) -> Set<Option<V>> {
    match after.get(k) {
        None => Set::empty().insert(None),
        Some(v) => if k == seed {
            term::selected_in(higher(v).complement().intersect(equal(v).complement()))
        } else {
            term::selected_in(higher(v).complement())
        },
    }
}

/// The selection is within the bounds of what changes, and every guard holds.
pub open spec fn in_region<K, V>(
    rules: Seq<Clause<K, V>>,
    projected: Set<K>,
    before: Map<K, V>,
    after: Map<K, V>,
    equal: spec_fn(V) -> Set<V>,
    higher: spec_fn(V) -> Set<V>,
    seed: K,
    changed: Set<K>,
    s: Map<K, V>,
) -> bool {
    &&& forall|k: K| #[trigger]
        projected.contains(k) && changed.contains(k) ==> bound(
            equal,
            higher,
            after,
            seed,
            k,
        ).contains(s.get(k))
    &&& forall|c: int, i: int|
        0 <= c < rules.len() && touches(rules[c], changed) && !is_replaced(
            rules[c],
            changed,
            after,
        ) && #[trigger] is_guard(rules[c], changed, projected, before, i)
            ==> !rules[c][i].1.contains(s.get(rules[c][i].0))
}

/// The new version of the package is an upgrade.
pub open spec fn is_improved<K, V>(
    before: Map<K, V>,
    after: Map<K, V>,
    higher: spec_fn(V) -> Set<V>,
    k: K,
) -> bool {
    before.dom().contains(k) && after.dom().contains(k) && higher(before[k]).contains(after[k])
}

/// The first of the packages that is improved.
pub open spec fn is_seed<K, V>(
    candidates: Seq<K>,
    before: Map<K, V>,
    after: Map<K, V>,
    higher: spec_fn(V) -> Set<V>,
    seed: K,
) -> bool {
    exists|i: int|
        0 <= i < candidates.len() && #[trigger] candidates[i] == seed && is_improved(
            before,
            after,
            higher,
            seed,
        ) && forall|j: int|
            0 <= j < i ==> !is_improved(before, after, higher, #[trigger] candidates[j])
}

/// One of the packages is improved.
pub open spec fn has_improvement<K, V>(
    candidates: Seq<K>,
    before: Map<K, V>,
    after: Map<K, V>,
    higher: spec_fn(V) -> Set<V>,
) -> bool {
    exists|i: int|
        0 <= i < candidates.len() && is_improved(before, after, higher, #[trigger] candidates[i])
}

/// The bounds of what changes, in the order of the packages.
pub open spec fn bounds<K, V>(
    keys: Seq<K>,
    n: int,
    equal: spec_fn(V) -> Set<V>,
    higher: spec_fn(V) -> Set<V>,
    after: Map<K, V>,
    seed: K,
    changed: Set<K>,
) -> Clause<K, V>
    decreases n,
{
    if n <= 0 {
        Seq::empty()
    } else {
        let earlier = bounds(keys, n - 1, equal, higher, after, seed, changed);
        let k = keys[n - 1];
        if changed.contains(k) {
            earlier.push((k, bound(equal, higher, after, seed, k)))
        } else {
            earlier
        }
    }
}

/// The guards, in the order of the rules.
pub open spec fn guards<K, V>(
    rules: Seq<Clause<K, V>>,
    n: int,
    projected: Set<K>,
    before: Map<K, V>,
    after: Map<K, V>,
    changed: Set<K>,
) -> Clause<K, V>
    decreases n,
{
    if n <= 0 {
        Seq::empty()
    } else {
        let earlier = guards(rules, n - 1, projected, before, after, changed);
        let rule = rules[n - 1];
        if touches(rule, changed) && !is_replaced(rule, changed, after) {
            let i = choose|i: int| is_guard(rule, changed, projected, before, i);
            earlier.push((rule[i].0, rule[i].1.complement()))
        } else {
            earlier
        }
    }
}

/// The clause holds exactly in the region in which the change of the packages is feasible and
/// improves the first of the candidates. Its parts are the bounds and then the guards, merged.
pub open spec fn describes_region<K, V>(
    rules: Seq<Clause<K, V>>,
    projected: Seq<K>,
    preferred: K,
    before: Map<K, V>,
    after: Map<K, V>,
    equal: spec_fn(V) -> Set<V>,
    higher: spec_fn(V) -> Set<V>,
    seed: K,
    changed: Set<K>,
    region: Clause<K, V>,
) -> bool {
    &&& is_seed(seq![preferred] + projected, before, after, higher, seed)
    &&& is_closure(rules, projected.to_set(), before, after, seed, changed)
    &&& forall|s: Map<K, V>| #[trigger]
        search::violates(region, s) <==> in_region(
            rules,
            projected.to_set(),
            before,
            after,
            equal,
            higher,
            seed,
            changed,
            s,
        )
    &&& region == residual::merged(
        bounds(projected, projected.len() as int, equal, higher, after, seed, changed) + guards(
            rules,
            rules.len() as int,
            projected.to_set(),
            before,
            after,
            changed,
        ),
    )
    &&& forall|i: int| 0 <= i < region.len() ==> projected.contains((#[trigger] region[i]).0)
    &&& forall|i: int, j: int|
        0 <= i < j < region.len() ==> (#[trigger] region[i]).0 != (#[trigger] region[j]).0
}

/// The clause describes a region that the improvement lifts to.
pub open spec fn is_substitution_region<K, V>(
    rules: Seq<Clause<K, V>>,
    projected: Seq<K>,
    preferred: K,
    before: Map<K, V>,
    after: Map<K, V>,
    equal: spec_fn(V) -> Set<V>,
    higher: spec_fn(V) -> Set<V>,
    region: Clause<K, V>,
) -> bool {
    exists|seed: K, changed: Set<K>| #[trigger]
        describes_region(
            rules,
            projected,
            preferred,
            before,
            after,
            equal,
            higher,
            seed,
            changed,
            region,
        )
}

proof fn lemma_seed_stays<K, V>(
    rules: Seq<Clause<K, V>>,
    projected: Set<K>,
    before: Map<K, V>,
    after: Map<K, V>,
    changed: Set<K>,
    more: Set<K>,
    steps: nat,
)
    requires
        extends_in(rules, projected, before, after, changed, more, steps),
    ensures
        changed.subset_of(more),
    decreases steps,
{
    if steps > 0 {
        let m = choose|m: Set<K>|
            extends_in(rules, projected, before, after, changed, m, (steps - 1) as nat)
                && #[trigger] extends(rules, projected, before, after, m, more);
        lemma_seed_stays(rules, projected, before, after, changed, m, (steps - 1) as nat);
    }
}

/// Every solution in the region stays feasible when the changed packages get their new states.
pub proof fn substitution_is_feasible<K, V>(
    rules: Seq<Clause<K, V>>,
    projected: Seq<K>,
    preferred: K,
    before: Map<K, V>,
    after: Map<K, V>,
    equal: spec_fn(V) -> Set<V>,
    higher: spec_fn(V) -> Set<V>,
    seed: K,
    changed: Set<K>,
    region: Clause<K, V>,
    s: Map<K, V>,
)
    requires
        describes_region(
            rules,
            projected,
            preferred,
            before,
            after,
            equal,
            higher,
            seed,
            changed,
            region,
        ),
        problem::avoids(rules, s),
        search::violates(region, s),
    ensures
        problem::avoids(rules, partition::mixed(changed, after, s)),
{
    let u = partition::mixed(changed, after, s);
    assert forall|c: int| 0 <= c < rules.len() implies !search::violates(
        #[trigger] rules[c],
        u,
    ) by {
        let rule = rules[c];
        if search::violates(rule, u) {
            if touches(rule, changed) {
                if is_replaced(rule, changed, after) {
                    let i = choose|i: int|
                        0 <= i < rule.len() && changed.contains((#[trigger] rule[i]).0)
                            && !rule[i].1.contains(after.get(rule[i].0));
                    assert(u.get(rule[i].0) == after.get(rule[i].0));
                    assert(rule[i].1.contains(u.get(rule[i].0)));
                } else {
                    let any = choose|i: int| #[trigger]
                        may_guard(rule, changed, projected.to_set(), before, i);
                    let i = lemma_first_guard(
                        rule,
                        changed,
                        projected.to_set(),
                        before,
                        any,
                    );
                    assert(u.get(rule[i].0) == s.get(rule[i].0));
                    assert(rule[i].1.contains(u.get(rule[i].0)));
                }
            } else {
                assert forall|i: int| 0 <= i < rule.len() implies (#[trigger] rule[i]).1.contains(
                    s.get(rule[i].0),
                ) by {
                    assert(!changed.contains(rule[i].0));
                    assert(u.get(rule[i].0) == s.get(rule[i].0));
                }
                assert(search::violates(rule, s));
            }
        }
    }
}

proof fn lemma_first_guard<K, V>(
    rule: Clause<K, V>,
    changed: Set<K>,
    projected: Set<K>,
    before: Map<K, V>,
    any: int,
) -> (i: int)
    requires
        may_guard(rule, changed, projected, before, any),
    ensures
        is_guard(rule, changed, projected, before, i),
    decreases any,
{
    if exists|j: int| 0 <= j < any && #[trigger] may_guard(rule, changed, projected, before, j) {
        let j = choose|j: int|
            0 <= j < any && #[trigger] may_guard(rule, changed, projected, before, j);
        lemma_first_guard(rule, changed, projected, before, j)
    } else {
        any
    }
}

/// Every solution in the region is dominated by the one that the substitution makes of it, so the
/// region holds no maximal solution.
pub proof fn region_holds_no_maximal_solution<K, V>(
    rules: Seq<Clause<K, V>>,
    projected: Seq<K>,
    preferred: K,
    before: Map<K, V>,
    after: Map<K, V>,
    o: Precedence<V>,
    among: Set<V>,
    seed: K,
    changed: Set<K>,
    region: Clause<K, V>,
    s: Map<K, V>,
)
    requires
        projected.contains(preferred),
        describes_region(
            rules,
            projected,
            preferred,
            before,
            after,
            o.equal,
            o.higher,
            seed,
            changed,
            region,
        ),
        o.is_total(among),
        ordering::is_among(after, among),
        ordering::is_among(s, among),
        o.flawless(projected, s),
        problem::avoids(rules, s),
        search::violates(region, s),
    ensures
        problem::avoids(rules, partition::mixed(changed, after, s)),
        o.improves(projected, s, partition::mixed(changed, after, s), seed),
        o.dominates(projected, s, partition::mixed(changed, after, s)),
{
    substitution_is_feasible(
        rules,
        projected,
        preferred,
        before,
        after,
        o.equal,
        o.higher,
        seed,
        changed,
        region,
        s,
    );
    let u = partition::mixed(changed, after, s);
    let all = projected.to_set();
    let steps = choose|steps: nat| #[trigger]
        extends_in(rules, all, before, after, Set::empty().insert(seed), changed, steps);
    lemma_seed_stays(rules, all, before, after, Set::empty().insert(seed), changed, steps);
    assert(changed.contains(seed));
    let candidates = seq![preferred] + projected;
    let i = choose|i: int|
        0 <= i < candidates.len() && #[trigger] candidates[i] == seed && is_improved(
            before,
            after,
            o.higher,
            seed,
        ) && forall|j: int|
            0 <= j < i ==> !is_improved(before, after, o.higher, #[trigger] candidates[j]);
    assert(projected.contains(seed)) by {
        if i > 0 {
            assert(projected[i - 1] == seed);
        }
    }
    assert(all.contains(seed) && changed.contains(seed));
    assert(bound(o.equal, o.higher, after, seed, seed).contains(s.get(seed)));
    assert(s.dom().contains(seed));
    assert forall|k: K| #[trigger] s.dom().contains(k) && projected.contains(k) implies {
        &&& u.dom().contains(k)
        &&& if k == seed {
            (o.higher)(s[k]).contains(u[k])
        } else {
            o.at_least(s[k]).contains(u[k])
        }
    } by {
        if changed.contains(k) {
            assert(all.contains(k));
            assert(bound(o.equal, o.higher, after, seed, k).contains(s.get(k)));
            assert(s.get(k) == Some(s[k]));
            let v = after[k];
            let w = s[k];
            assert(u.dom().contains(k));
            assert(after.dom().contains(k));
            assert(!(o.higher)(v).contains(w));
            assert((o.higher)(w).contains(v) || (o.equal)(v).contains(w) && (o.equal)(w).contains(
                v,
            ));
        } else {
            assert(o.flaw(s[k]) is None);
        }
    }
    assert(o.improves(projected, s, u, seed));
}

/// The solution that was improved lies in the region, where the other one has the same projected
/// packages and none of them at a lower rank.
pub proof fn improved_solution_lies_in_region<K, V>(
    rules: Seq<Clause<K, V>>,
    projected: Seq<K>,
    preferred: K,
    before: Map<K, V>,
    after: Map<K, V>,
    o: Precedence<V>,
    among: Set<V>,
    number: spec_fn(V) -> int,
    seed: K,
    changed: Set<K>,
    region: Clause<K, V>,
)
    requires
        describes_region(
            rules,
            projected,
            preferred,
            before,
            after,
            o.equal,
            o.higher,
            seed,
            changed,
            region,
        ),
        o.numbered(among, number),
        ordering::is_among(before, among),
        ordering::is_among(after, among),
        o.flawless(projected, before),
        o.flawless(projected, after),
        forall|k: K| #[trigger]
            projected.contains(k) ==> (before.dom().contains(k) <==> after.dom().contains(k)),
        forall|k: K| #[trigger]
            projected.contains(k) && before.dom().contains(k) ==> o.at_least(before[k]).contains(
                after[k],
            ),
    ensures
        search::violates(region, before),
{
    let all = projected.to_set();
    assert forall|k: K| #[trigger] all.contains(k) && changed.contains(k) implies bound(
        o.equal,
        o.higher,
        after,
        seed,
        k,
    ).contains(before.get(k)) by {
        assert(projected.contains(k));
        if after.dom().contains(k) {
            assert(before.dom().contains(k));
            let v = before[k];
            let w = after[k];
            assert(o.flaw(v) is None && o.flaw(w) is None);
            assert((o.equal)(v).contains(w) || (o.higher)(v).contains(w));
            assert(number(w) >= number(v));
            assert(!(o.higher)(w).contains(v));
            if k == seed {
                assert((o.higher)(v).contains(w));
                assert(!(o.equal)(w).contains(v));
            }
        }
    }
    assert forall|c: int, i: int|
        0 <= c < rules.len() && touches(rules[c], changed) && !is_replaced(
            rules[c],
            changed,
            after,
        ) && #[trigger] is_guard(rules[c], changed, all, before, i) implies !rules[c][i].1.contains(
        before.get(rules[c][i].0),
    ) by {}
}

/// The packages whose places are marked.
spec fn marked<K>(names: Seq<K>, marks: Seq<bool>) -> Set<K> {
    Set::new(|k: K| exists|z: int| 0 <= z < names.len() && #[trigger] names[z] == k && marks[z])
}

proof fn lemma_marked<K>(names: Seq<K>, marks: Seq<bool>, z: int)
    requires
        names.no_duplicates(),
        0 <= z < names.len(),
    ensures
        marked(names, marks).contains(names[z]) <==> marks[z],
{
    if marked(names, marks).contains(names[z]) {
        let w = choose|w: int| 0 <= w < names.len() && #[trigger] names[w] == names[z] && marks[w];
        assert(w == z);
    }
}

proof fn lemma_mark<K>(names: Seq<K>, marks: Seq<bool>, z: int)
    requires
        marks.len() == names.len(),
        0 <= z < names.len(),
    ensures
        marked(names, marks.update(z, true)) == marked(names, marks).insert(names[z]),
{
    let after = marked(names, marks.update(z, true));
    let wanted = marked(names, marks).insert(names[z]);
    assert forall|k: K| after.contains(k) <==> wanted.contains(k) by {
        if after.contains(k) {
            let w = choose|w: int|
                0 <= w < names.len() && #[trigger] names[w] == k && marks.update(z, true)[w];
            if w != z {
                assert(marks[w] && names[w] == k);
            }
        }
        if wanted.contains(k) {
            if k == names[z] {
                assert(marks.update(z, true)[z]);
            } else {
                let w = choose|w: int| 0 <= w < names.len() && #[trigger] names[w] == k && marks[w];
                assert(marks.update(z, true)[w]);
            }
        }
    }
    assert(after =~= wanted);
}

/// The number of places without a mark.
spec fn unmarked(marks: Seq<bool>) -> nat
    decreases marks.len(),
{
    if marks.len() == 0 {
        0
    } else {
        unmarked(marks.drop_last()) + if marks.last() {
            0nat
        } else {
            1nat
        }
    }
}

proof fn lemma_unmarked(marks: Seq<bool>, z: int)
    requires
        0 <= z < marks.len(),
        !marks[z],
    ensures
        unmarked(marks.update(z, true)) < unmarked(marks),
    decreases marks.len(),
{
    let after = marks.update(z, true);
    if z < marks.len() - 1 {
        lemma_unmarked(marks.drop_last(), z);
        assert(after.drop_last() =~= marks.drop_last().update(z, true));
    } else {
        assert(after.drop_last() =~= marks.drop_last());
    }
}

impl<P: Package, VS: VersionSet> ConstraintModel<P, VS> {
    /// Whether the new state of a changed package keeps the clause from being violated.
    fn replaced(
        &self,
        clause: &Vec<(usize, Term<VS>)>,
        changed: &Vec<bool>,
        after: &SelectedDependencies<P, VS::V>,
    ) -> (r: bool)
        requires
            self.wf(),
            residual::in_range(clause@, self.packages().len() as int),
            changed@.len() == self.packages().len(),
        ensures
            r == is_replaced(
                residual::named(self.packages(), clause@),
                marked(self.packages(), changed@),
                after@,
            ),
    {
        let ghost names = self.packages();
        let ghost rule = residual::named(names, clause@);
        let mut i: usize = 0;
        while i < clause.len()
            invariant
                self.wf(),
                names == self.packages(),
                names.no_duplicates(),
                rule == residual::named(names, clause@),
                residual::in_range(clause@, names.len() as int),
                changed@.len() == names.len(),
                names.len() == self.domains@.len(),
                i <= clause@.len(),
                forall|j: int|
                    0 <= j < i && marked(names, changed@).contains((#[trigger] rule[j]).0)
                        ==> rule[j].1.contains(after@.get(rule[j].0)),
            decreases clause@.len() - i,
        {
            let id = clause[i].0;
            assert(clause@[i as int].0 < names.len());
            proof {
                lemma_marked(names, changed@, id as int);
                assert(rule[i as int].0 == names[id as int]);
                assert(names[id as int] == self.domains@[id as int].package@);
            }
            if changed[id] && !residual::matches(
                &clause[i].1,
                after.get(&self.domains[id].package),
            ) {
                assert(marked(names, changed@).contains(rule[i as int].0));
                return true;
            }
            i += 1;
        }
        false
    }

    /// The first part about a projected package that does not change and keeps the clause from
    /// being violated.
    fn guard(
        &self,
        clause: &Vec<(usize, Term<VS>)>,
        changed: &Vec<bool>,
        projected: &Vec<bool>,
        before: &SelectedDependencies<P, VS::V>,
    ) -> (r: Option<usize>)
        requires
            self.wf(),
            residual::in_range(clause@, self.packages().len() as int),
            changed@.len() == self.packages().len(),
            projected@.len() == self.packages().len(),
        ensures
            match r {
                Some(i) => i < clause@.len() && is_guard(
                    residual::named(self.packages(), clause@),
                    marked(self.packages(), changed@),
                    marked(self.packages(), projected@),
                    before@,
                    i as int,
                ),
                None => forall|i: int| !#[trigger]
                    may_guard(
                        residual::named(self.packages(), clause@),
                        marked(self.packages(), changed@),
                        marked(self.packages(), projected@),
                        before@,
                        i,
                    ),
            },
    {
        let ghost names = self.packages();
        let ghost rule = residual::named(names, clause@);
        let ghost x = marked(names, changed@);
        let ghost all = marked(names, projected@);
        let mut i: usize = 0;
        while i < clause.len()
            invariant
                self.wf(),
                names == self.packages(),
                names.no_duplicates(),
                rule == residual::named(names, clause@),
                x == marked(names, changed@),
                all == marked(names, projected@),
                residual::in_range(clause@, names.len() as int),
                changed@.len() == names.len(),
                projected@.len() == names.len(),
                names.len() == self.domains@.len(),
                i <= clause@.len(),
                forall|j: int| 0 <= j < i ==> !#[trigger] may_guard(rule, x, all, before@, j),
            decreases clause@.len() - i,
        {
            let id = clause[i].0;
            assert(clause@[i as int].0 < names.len());
            proof {
                lemma_marked(names, changed@, id as int);
                lemma_marked(names, projected@, id as int);
                assert(rule[i as int].0 == names[id as int]);
                assert(names[id as int] == self.domains@[id as int].package@);
            }
            if !changed[id] && projected[id] && !residual::matches(
                &clause[i].1,
                before.get(&self.domains[id].package),
            ) {
                assert(may_guard(rule, x, all, before@, i as int));
                return Some(i);
            }
            i += 1;
        }
        None
    }

    /// The cheapest part whose package keeps the clause from being violated once it changes.
    fn replacement(
        &self,
        clause: &Vec<(usize, Term<VS>)>,
        changed: &Vec<bool>,
        projected: &Vec<bool>,
        after: &SelectedDependencies<P, VS::V>,
    ) -> (r: usize)
        requires
            self.wf(),
            residual::in_range(clause@, self.packages().len() as int),
            changed@.len() == self.packages().len(),
            projected@.len() == self.packages().len(),
            exists|i: int| #[trigger]
                may_replace(
                    residual::named(self.packages(), clause@),
                    marked(self.packages(), changed@),
                    after@,
                    i,
                ),
        ensures
            r < clause@.len(),
            is_replacement(
                self.rules(),
                marked(self.packages(), projected@),
                residual::named(self.packages(), clause@),
                marked(self.packages(), changed@),
                after@,
                r as int,
            ),
    {
        let ghost names = self.packages();
        let ghost rules = self.rules();
        let ghost rule = residual::named(names, clause@);
        let ghost x = marked(names, changed@);
        let ghost all = marked(names, projected@);
        let mut best: usize = 0;
        let mut found = false;
        let mut i: usize = 0;
        while i < clause.len()
            invariant
                self.wf(),
                names == self.packages(),
                rules == self.rules(),
                names.no_duplicates(),
                rule == residual::named(names, clause@),
                x == marked(names, changed@),
                all == marked(names, projected@),
                residual::in_range(clause@, names.len() as int),
                changed@.len() == names.len(),
                projected@.len() == names.len(),
                names.len() == self.domains@.len(),
                i <= clause@.len(),
                found ==> best < i && may_replace(rule, x, after@, best as int),
                forall|j: int|
                    0 <= j < i && #[trigger] may_replace(rule, x, after@, j) ==> {
                        &&& found
                        &&& !is_cheaper(rules, all, rule[j].0, rule[best as int].0)
                        &&& j < best ==> is_cheaper(rules, all, rule[best as int].0, rule[j].0)
                    },
            decreases clause@.len() - i,
        {
            let id = clause[i].0;
            assert(clause@[i as int].0 < names.len());
            proof {
                lemma_marked(names, changed@, id as int);
                lemma_marked(names, projected@, id as int);
                assert(rule[i as int].0 == names[id as int]);
                assert(names[id as int] == self.domains@[id as int].package@);
                assert(self.occurrences@[id as int]@.len() == residual::frequency(
                    rules,
                    names[id as int],
                ));
            }
            if !changed[id] && !residual::matches(
                &clause[i].1,
                after.get(&self.domains[id].package),
            ) {
                let better = if found {
                    let other = clause[best].0;
                    proof {
                        assert(clause@[best as int].0 < names.len());
                        lemma_marked(names, projected@, other as int);
                        assert(rule[best as int].0 == names[other as int]);
                        assert(self.occurrences@[other as int]@.len() == residual::frequency(
                            rules,
                            names[other as int],
                        ));
                    }
                    if projected[id] != projected[other] {
                        projected[other]
                    } else {
                        self.occurrences[id].len() < self.occurrences[other].len()
                    }
                } else {
                    true
                };
                assert(may_replace(rule, x, after@, i as int));
                if better {
                    best = i;
                    found = true;
                }
            }
            i += 1;
        }
        proof {
            let any = choose|i: int| #[trigger] may_replace(rule, x, after@, i);
            assert(may_replace(rule, x, after@, any));
        }
        best
    }
}

/// The clause is waiting in the queue.
spec fn waits(pending: Seq<usize>, next: int, c: int) -> bool {
    exists|q: int| next <= q < pending.len() && (#[trigger] pending[q]) == c
}

/// The change of one more package.
proof fn lemma_extends<K, V>(
    rules: Seq<Clause<K, V>>,
    projected: Set<K>,
    before: Map<K, V>,
    after: Map<K, V>,
    start: Set<K>,
    changed: Set<K>,
    more: Set<K>,
)
    requires
        exists|steps: nat| #[trigger]
            extends_in(rules, projected, before, after, start, changed, steps),
        extends(rules, projected, before, after, changed, more),
    ensures
        exists|steps: nat| #[trigger]
            extends_in(rules, projected, before, after, start, more, steps),
{
    let steps = choose|steps: nat| #[trigger]
        extends_in(rules, projected, before, after, start, changed, steps);
    assert(extends_in(rules, projected, before, after, start, more, steps + 1));
}

/// A clause that does not speak of the package is held as before.
proof fn lemma_held_elsewhere<K, V>(
    rule: Clause<K, V>,
    changed: Set<K>,
    k: K,
    projected: Set<K>,
    before: Map<K, V>,
    after: Map<K, V>,
)
    requires
        forall|i: int| 0 <= i < rule.len() ==> (#[trigger] rule[i]).0 != k,
    ensures
        touches(rule, changed.insert(k)) <==> touches(rule, changed),
        is_held(rule, changed, projected, before, after) ==> is_held(
            rule,
            changed.insert(k),
            projected,
            before,
            after,
        ),
{
    let more = changed.insert(k);
    if touches(rule, changed) {
        let i = choose|i: int| 0 <= i < rule.len() && changed.contains((#[trigger] rule[i]).0);
        assert(more.contains(rule[i].0));
    }
    if touches(rule, more) {
        let i = choose|i: int| 0 <= i < rule.len() && more.contains((#[trigger] rule[i]).0);
        assert(changed.contains(rule[i].0));
    }
    if is_replaced(rule, changed, after) {
        let i = choose|i: int|
            0 <= i < rule.len() && changed.contains((#[trigger] rule[i]).0)
                && !rule[i].1.contains(after.get(rule[i].0));
        assert(more.contains(rule[i].0));
        assert(is_replaced(rule, more, after));
    } else if is_held(rule, changed, projected, before, after) {
        let i = choose|i: int| #[trigger] may_guard(rule, changed, projected, before, i);
        assert(rule[i].0 != k);
        assert(may_guard(rule, more, projected, before, i));
    }
}

impl<P: Package, VS: VersionSet> ConstraintModel<P, VS> {
    /// A clause about a changed place speaks of a changed package.
    proof fn lemma_about(self, c: int, id: int, changed: Set<P::V>)
        requires
            self.wf(),
            0 <= c < self.clauses@.len(),
            0 <= id < self.packages().len(),
            residual::is_about(self.clauses@[c]@, id),
            changed.contains(self.packages()[id]),
        ensures
            touches(self.rules()[c], changed),
    {
        let clause = self.clauses@[c]@;
        let i = choose|i: int| 0 <= i < clause.len() && (#[trigger] clause[i]).0 == id;
        assert(self.rules()[c][i].0 == self.packages()[id]);
    }

    /// What must change together with the package at the place.
    fn closure(
        &self,
        before: &SelectedDependencies<P, VS::V>,
        after: &SelectedDependencies<P, VS::V>,
        projected: &Vec<bool>,
        seed: usize,
    ) -> (r: Vec<bool>)
        requires
            self.wf(),
            self.allows(after@),
            projected@.len() == self.packages().len(),
            seed < self.packages().len(),
        ensures
            r@.len() == self.packages().len(),
            is_closure(
                self.rules(),
                marked(self.packages(), projected@),
                before@,
                after@,
                self.packages()[seed as int],
                marked(self.packages(), r@),
            ),
    {
        let ghost names = self.packages();
        let ghost rules = self.rules();
        let ghost all = marked(names, projected@);
        let ghost k = names[seed as int];
        let ghost start = Set::<P::V>::empty().insert(k);
        let mut changed: Vec<bool> = Vec::new();
        while changed.len() < self.domains.len()
            invariant
                changed@.len() <= self.domains@.len(),
                forall|i: int| 0 <= i < changed@.len() ==> !#[trigger] changed@[i],
            decreases self.domains@.len() - changed@.len(),
        {
            changed.push(false);
        }
        let ghost blank = changed@;
        changed.set(seed, true);
        proof {
            assert(marked(names, blank) =~= Set::empty());
            lemma_mark(names, blank, seed as int);
            assert(extends_in(rules, all, before@, after@, start, start, 0));
        }
        let count = self.clauses.len();
        let mut pending: Vec<usize> = Vec::new();
        let mut m: usize = 0;
        while m < self.occurrences[seed].len()
            invariant
                self.wf(),
                seed < self.occurrences@.len(),
                m <= self.occurrences@[seed as int]@.len(),
                pending@.len() == m,
                forall|q: int|
                    0 <= q < m ==> (#[trigger] pending@[q]) == self.occurrences@[seed as int]@[q],
            decreases self.occurrences@[seed as int]@.len() - m,
        {
            pending.push(self.occurrences[seed][m]);
            m += 1;
        }
        proof {
            assert forall|q: int| 0 <= q < pending@.len() implies (#[trigger] pending@[q])
                < self.clauses@.len() && touches(rules[pending@[q] as int], start) by {
                let c = self.occurrences@[seed as int]@[q];
                assert(c < self.clauses@.len());
                self.lemma_about(c as int, seed as int, start);
            }
            assert forall|c: int|
                0 <= c < rules.len() && touches(#[trigger] rules[c], start) implies is_held(
                rules[c],
                start,
                all,
                before@,
                after@,
            ) || waits(pending@, 0, c) by {
                let rule = rules[c];
                let i = choose|i: int| 0 <= i < rule.len() && start.contains((#[trigger] rule[i]).0);
                let clause = self.clauses@[c]@;
                assert(residual::in_range(self.clauses@[c]@, names.len() as int));
                assert(clause[i].0 < names.len());
                assert(names[clause[i].0 as int] == names[seed as int]);
                assert(clause[i].0 == seed);
                assert(residual::is_about(self.clauses@[c]@, seed as int));
                assert(self.occurrences@[seed as int]@.contains(c as usize));
                let q = choose|q: int|
                    0 <= q < self.occurrences@[seed as int]@.len()
                        && self.occurrences@[seed as int]@[q] == c as usize;
                assert(pending@[q] == c);
            }
        }
        let mut next: usize = 0;
        while next < pending.len()
            invariant
                self.wf(),
                self.allows(after@),
                names == self.packages(),
                names.no_duplicates(),
                rules == self.rules(),
                all == marked(names, projected@),
                projected@.len() == names.len(),
                changed@.len() == names.len(),
                names.len() == self.domains@.len(),
                next <= pending@.len(),
                exists|steps: nat| #[trigger]
                    extends_in(
                        rules,
                        all,
                        before@,
                        after@,
                        start,
                        marked(names, changed@),
                        steps,
                    ),
                forall|q: int|
                    0 <= q < pending@.len() ==> (#[trigger] pending@[q]) < self.clauses@.len()
                        && touches(rules[pending@[q] as int], marked(names, changed@)),
                self.clauses@.len() == count,
                forall|c: int|
                    0 <= c < rules.len() && touches(#[trigger] rules[c], marked(names, changed@))
                        ==> is_held(rules[c], marked(names, changed@), all, before@, after@)
                        || waits(pending@, next as int, c),
            decreases unmarked(changed@), pending@.len() - next,
        {
            let ghost x = marked(names, changed@);
            let ghost queue = pending@;
            let index = pending[next];
            let ghost first = next as int;
            next += 1;
            let clause = &self.clauses[index];
            let ghost rule = rules[index as int];
            assert(residual::in_range(self.clauses@[index as int]@, names.len() as int));
            assert(rule == residual::named(names, clause@));
            let replaced = self.replaced(clause, &changed, after);
            let guard = if replaced {
                None
            } else {
                self.guard(clause, &changed, projected, before)
            };
            proof {
                assert forall|c: int|
                    0 <= c < rules.len() && c != index && #[trigger] waits(
                        queue,
                        first,
                        c,
                    ) implies waits(queue, first + 1, c) by {
                    let q = choose|q: int| first <= q < queue.len() && (#[trigger] queue[q]) == c;
                    assert(q != first);
                    assert(queue[q] == c);
                }
            }
            if replaced || guard.is_some() {
                proof {
                    assert(is_held(rule, x, all, before@, after@)) by {
                        if !replaced {
                            assert(may_guard(rule, x, all, before@, guard->0 as int));
                        }
                    }
                    assert forall|c: int|
                        0 <= c < rules.len() && touches(#[trigger] rules[c], x) implies is_held(
                        rules[c],
                        x,
                        all,
                        before@,
                        after@,
                    ) || waits(pending@, next as int, c) by {
                        if c != index && !is_held(rules[c], x, all, before@, after@) {
                            assert(waits(queue, first, c));
                        }
                    }
                }
            } else {
                proof {
                    assert(touches(rule, x));
                    assert(!is_held(rule, x, all, before@, after@));
                    assert(!search::violates(rules[index as int], after@));
                    let i = choose|i: int|
                        0 <= i < rule.len() && !(#[trigger] rule[i]).1.contains(
                            after@.get(rule[i].0),
                        );
                    assert(may_replace(rule, x, after@, i));
                }
                let part = self.replacement(clause, &changed, projected, after);
                let id = clause[part].0;
                assert(clause@[part as int].0 < names.len());
                let ghost marks = changed@;
                let ghost added = names[id as int];
                proof {
                    assert(rule[part as int].0 == added);
                    lemma_marked(names, changed@, id as int);
                    lemma_unmarked(marks, id as int);
                    lemma_mark(names, marks, id as int);
                }
                changed.set(id, true);
                let ghost more = marked(names, changed@);
                proof {
                    assert(more == x.insert(added));
                    assert(is_replacement(
                        rules,
                        all,
                        rules[index as int],
                        x,
                        after@,
                        part as int,
                    ));
                    assert(extends(rules, all, before@, after@, x, more));
                    lemma_extends(rules, all, before@, after@, start, x, more);
                }
                let mut m: usize = 0;
                while m < self.occurrences[id].len()
                    invariant
                        self.wf(),
                        id < self.occurrences@.len(),
                        m <= self.occurrences@[id as int]@.len(),
                        pending@.len() == queue.len() + m,
                        forall|q: int| 0 <= q < queue.len() ==> (#[trigger] pending@[q]) == queue[q],
                        forall|q: int|
                            queue.len() <= q < pending@.len() ==> (#[trigger] pending@[q])
                                == self.occurrences@[id as int]@[q - queue.len()],
                    decreases self.occurrences@[id as int]@.len() - m,
                {
                    pending.push(self.occurrences[id][m]);
                    m += 1;
                }
                proof {
                    assert forall|q: int| 0 <= q < pending@.len() implies (#[trigger] pending@[q])
                        < self.clauses@.len() && touches(rules[pending@[q] as int], more) by {
                        if q < queue.len() {
                            assert(pending@[q] == queue[q]);
                            let other = rules[queue[q] as int];
                            let i = choose|i: int|
                                0 <= i < other.len() && x.contains((#[trigger] other[i]).0);
                            assert(more.contains(other[i].0));
                        } else {
                            let c = self.occurrences@[id as int]@[q - queue.len()];
                            assert(c < self.clauses@.len());
                            self.lemma_about(c as int, id as int, more);
                        }
                    }
                    assert forall|c: int|
                        0 <= c < rules.len() && touches(#[trigger] rules[c], more) implies is_held(
                        rules[c],
                        more,
                        all,
                        before@,
                        after@,
                    ) || waits(pending@, next as int, c) by {
                        let other = rules[c];
                        let list = self.clauses@[c]@;
                        assert(residual::in_range(self.clauses@[c]@, names.len() as int));
                        if exists|i: int| 0 <= i < other.len() && (#[trigger] other[i]).0 == added {
                            let i = choose|i: int|
                                0 <= i < other.len() && (#[trigger] other[i]).0 == added;
                            assert(list[i].0 < names.len());
                            assert(names[list[i].0 as int] == names[id as int]);
                            assert(list[i].0 == id);
                            assert(residual::is_about(self.clauses@[c]@, id as int));
                            assert(self.occurrences@[id as int]@.contains(c as usize));
                            let q = choose|q: int|
                                0 <= q < self.occurrences@[id as int]@.len()
                                    && self.occurrences@[id as int]@[q] == c as usize;
                            assert(pending@[queue.len() + q] == c);
                        } else {
                            lemma_held_elsewhere(other, x, added, all, before@, after@);
                            if !is_held(other, x, all, before@, after@) {
                                assert(waits(queue, first, c));
                                assert(c != index) by {
                                    if c == index {
                                        assert(other[part as int].0 == added);
                                    }
                                }
                                assert(waits(queue, first + 1, c));
                                let q = choose|q: int|
                                    first + 1 <= q < queue.len() && (#[trigger] queue[q]) == c;
                                assert(pending@[q] == c);
                            }
                        }
                    }
                }
            }
        }
        changed
    }

    /// Whether the clause speaks of a changed package.
    fn touched(&self, clause: &Vec<(usize, Term<VS>)>, changed: &Vec<bool>) -> (r: bool)
        requires
            self.wf(),
            residual::in_range(clause@, self.packages().len() as int),
            changed@.len() == self.packages().len(),
        ensures
            r == touches(
                residual::named(self.packages(), clause@),
                marked(self.packages(), changed@),
            ),
    {
        let ghost names = self.packages();
        let ghost rule = residual::named(names, clause@);
        let mut i: usize = 0;
        while i < clause.len()
            invariant
                names == self.packages(),
                names.no_duplicates(),
                rule == residual::named(names, clause@),
                residual::in_range(clause@, names.len() as int),
                changed@.len() == names.len(),
                i <= clause@.len(),
                forall|j: int|
                    0 <= j < i ==> !marked(names, changed@).contains((#[trigger] rule[j]).0),
            decreases clause@.len() - i,
        {
            let id = clause[i].0;
            assert(clause@[i as int].0 < names.len());
            proof {
                lemma_marked(names, changed@, id as int);
                assert(rule[i as int].0 == names[id as int]);
            }
            if changed[id] {
                assert(marked(names, changed@).contains(rule[i as int].0));
                return true;
            }
            i += 1;
        }
        false
    }
}

/// The selection is within the bounds of the first projected packages that change.
spec fn bounds_hold<K, V>(
    keys: Seq<K>,
    n: int,
    equal: spec_fn(V) -> Set<V>,
    higher: spec_fn(V) -> Set<V>,
    after: Map<K, V>,
    seed: K,
    changed: Set<K>,
    s: Map<K, V>,
) -> bool {
    forall|j: int|
        0 <= j < n && changed.contains(#[trigger] keys[j]) ==> bound(
            equal,
            higher,
            after,
            seed,
            keys[j],
        ).contains(s.get(keys[j]))
}

/// The guards of the first clauses hold.
spec fn guards_hold<K, V>(
    rules: Seq<Clause<K, V>>,
    n: int,
    projected: Set<K>,
    before: Map<K, V>,
    after: Map<K, V>,
    changed: Set<K>,
    s: Map<K, V>,
) -> bool {
    forall|c: int, i: int|
        0 <= c < n && touches(rules[c], changed) && !is_replaced(rules[c], changed, after)
            && #[trigger] is_guard(rules[c], changed, projected, before, i)
            ==> !rules[c][i].1.contains(s.get(rules[c][i].0))
}

/// One more part.
proof fn lemma_named_push<K, VS: VersionSet>(
    names: Seq<K>,
    clause: Seq<(usize, Term<VS>)>,
    part: (usize, Term<VS>),
    s: Map<K, VS::V>,
)
    ensures
        search::violates(residual::named(names, clause.push(part)), s) <==> search::violates(
            residual::named(names, clause),
            s,
        ) && part.1@.contains(s.get(names[part.0 as int])),
{
    let longer = residual::named(names, clause.push(part));
    let shorter = residual::named(names, clause);
    assert(longer =~= shorter.push((names[part.0 as int], part.1@)));
    search::lemma_violates_push(shorter, (names[part.0 as int], part.1@), s);
}

impl<P: Package, VS: VersionSet> ConstraintModel<P, VS> {
    /// The first of the packages that is improved.
    fn seed<F: Fn(&VS::V) -> VS>(
        &self,
        before: &SelectedDependencies<P, VS::V>,
        after: &SelectedDependencies<P, VS::V>,
        projected: &Vec<P>,
        strictly_higher: &F,
        preferred: &P,
    ) -> (r: usize)
        requires
            self.wf(),
            ordering::is_mapping::<VS, F>(*strictly_higher),
            self.packages().contains(preferred@),
            forall|i: int|
                0 <= i < projected@.len() ==> self.packages().contains((#[trigger] projected@[i])@),
            has_improvement(
                seq![preferred@] + package::keys(projected@),
                before@,
                after@,
                ordering::relation::<VS, F>(*strictly_higher),
            ),
        ensures
            r < self.packages().len(),
            is_seed(
                seq![preferred@] + package::keys(projected@),
                before@,
                after@,
                ordering::relation::<VS, F>(*strictly_higher),
                self.packages()[r as int],
            ),
    {
        let ghost higher = ordering::relation::<VS, F>(*strictly_higher);
        let ghost candidates = seq![preferred@] + package::keys(projected@);
        let ghost some = choose|j: int|
            0 <= j < candidates.len() && is_improved(
                before@,
                after@,
                higher,
                #[trigger] candidates[j],
            );
        if Self::improves(before, after, strictly_higher, preferred) {
            let r = self.place(preferred);
            assert(candidates[0] == self.packages()[r as int]);
            return r;
        }
        let n = projected.len();
        let mut i: usize = 0;
        assert(candidates[0] == preferred@);
        while !Self::improves(before, after, strictly_higher, &projected[i])
            invariant
                n == projected@.len(),
                ordering::is_mapping::<VS, F>(*strictly_higher),
                higher == ordering::relation::<VS, F>(*strictly_higher),
                candidates == seq![preferred@] + package::keys(projected@),
                i < projected@.len(),
                i < some < candidates.len(),
                is_improved(before@, after@, higher, candidates[some]),
                forall|j: int|
                    0 <= j <= i ==> !is_improved(before@, after@, higher, #[trigger] candidates[j]),
            decreases projected@.len() - i,
        {
            assert(candidates[i + 1] == projected@[i as int]@);
            i += 1;
        }
        assert(self.packages().contains(projected@[i as int]@));
        let r = self.place(&projected[i]);
        assert(candidates[i + 1] == self.packages()[r as int]);
        r
    }

    /// Whether the new version of the package is an upgrade.
    fn improves<F: Fn(&VS::V) -> VS>(
        before: &SelectedDependencies<P, VS::V>,
        after: &SelectedDependencies<P, VS::V>,
        strictly_higher: &F,
        package: &P,
    ) -> (r: bool)
        requires
            ordering::is_mapping::<VS, F>(*strictly_higher),
        ensures
            r == is_improved(
                before@,
                after@,
                ordering::relation::<VS, F>(*strictly_higher),
                package@,
            ),
    {
        match before.get(package) {
            Some(old) => match after.get(package) {
                Some(new) => {
                    let upgrades = (*strictly_higher)(old);
                    upgrades.contains(new)
                },
                None => false,
            },
            None => false,
        }
    }
}

impl<P: Package, VS: VersionSet> ConstraintModel<P, VS> {
    /// Lift an observed strict improvement to a cube of dominated assignments.
    ///
    /// Bound changed projected coordinates by their replacement values. For each clause touched by
    /// the substitution, either a replacement value already falsifies it, or retain one unchanged
    /// false term as a boundary guard. Consequently the same substitution is feasible for every
    /// solution in this cube, independent of all unmentioned coordinates. Hidden provider packages
    /// may be replaced too, but never participate in the Pareto objective or remain as guards on
    /// arbitrary internal choices. At least one projected coordinate strictly improves.
    pub fn substitution_region<R: Fn(&VS::V) -> VS, F: Fn(&VS::V) -> VS>(
        &self,
        before: &SelectedDependencies<P, VS::V>,
        after: &SelectedDependencies<P, VS::V>,
        projected: &Vec<P>,
        same_precedence: &R,
        strictly_higher: &F,
        preferred: &P,
    ) -> (r: Vec<(P, Term<VS>)>)
        requires
            self.wf(),
            self.allows(after@),
            ordering::is_mapping::<VS, R>(*same_precedence),
            ordering::is_mapping::<VS, F>(*strictly_higher),
            self.packages().contains(preferred@),
            forall|i: int|
                0 <= i < projected@.len() ==> self.packages().contains((#[trigger] projected@[i])@),
            has_improvement(
                seq![preferred@] + package::keys(projected@),
                before@,
                after@,
                ordering::relation::<VS, F>(*strictly_higher),
            ),
        ensures
            is_substitution_region(
                self.rules(),
                package::keys(projected@),
                preferred@,
                before@,
                after@,
                ordering::relation::<VS, R>(*same_precedence),
                ordering::relation::<VS, F>(*strictly_higher),
                term::parts(r@),
            ),
    {
        let ghost names = self.packages();
        let ghost rules = self.rules();
        let ghost keys = package::keys(projected@);
        let ghost equal = ordering::relation::<VS, R>(*same_precedence);
        let ghost higher = ordering::relation::<VS, F>(*strictly_higher);
        // A fresh solve may gratuitously switch equal-rank artifacts in unrelated components.
        // Start with one strict improvement and close only over clauses needed to make that
        // substitution feasible. This avoids turning those unrelated switches into cube guards.
        let seed = self.seed(before, after, projected, strictly_higher, preferred);
        let ghost k = names[seed as int];
        let mut wanted: Vec<bool> = Vec::new();
        while wanted.len() < self.domains.len()
            invariant
                wanted@.len() <= self.domains@.len(),
                keys == package::keys(projected@),
                forall|i: int|
                    0 <= i < wanted@.len() ==> (#[trigger] wanted@[i]) == keys.contains(
                        self.domains@[i].package@,
                    ),
            decreases self.domains@.len() - wanted@.len(),
        {
            let i = wanted.len();
            wanted.push(holds_package(projected, &self.domains[i].package));
        }
        let ghost all = marked(names, wanted@);
        proof {
            assert forall|x: P::V| all.contains(x) <==> keys.to_set().contains(x) by {
                if all.contains(x) {
                    let z = choose|z: int|
                        0 <= z < names.len() && #[trigger] names[z] == x && wanted@[z];
                    assert(keys.contains(x));
                }
                if keys.to_set().contains(x) {
                    let i = choose|i: int| 0 <= i < keys.len() && keys[i] == x;
                    assert(names.contains(projected@[i]@));
                    let z = choose|z: int| 0 <= z < names.len() && names[z] == x;
                    assert(self.domains@[z].package@ == x);
                    assert(wanted@[z]);
                }
            }
            assert(all =~= keys.to_set());
        }
        let changed = self.closure(before, after, &wanted, seed);
        let ghost x = marked(names, changed@);
        let mut gathered: Vec<(usize, Term<VS>)> = Vec::new();
        assert(residual::named(names, gathered@) =~= Seq::empty());
        let mut i: usize = 0;
        while i < projected.len()
            invariant
                self.wf(),
                names == self.packages(),
                names.no_duplicates(),
                keys == package::keys(projected@),
                all == keys.to_set(),
                equal == ordering::relation::<VS, R>(*same_precedence),
                higher == ordering::relation::<VS, F>(*strictly_higher),
                ordering::is_mapping::<VS, R>(*same_precedence),
                ordering::is_mapping::<VS, F>(*strictly_higher),
                forall|i: int|
                    0 <= i < projected@.len() ==> names.contains((#[trigger] projected@[i])@),
                seed < names.len(),
                k == names[seed as int],
                changed@.len() == names.len(),
                x == marked(names, changed@),
                i <= projected@.len(),
                residual::in_range(gathered@, names.len() as int),
                residual::named(names, gathered@) == bounds(
                    keys,
                    i as int,
                    equal,
                    higher,
                    after@,
                    k,
                    x,
                ),
                forall|g: int|
                    0 <= g < gathered@.len() ==> all.contains(names[(#[trigger] gathered@[g]).0 as int]),
                forall|s: Map<P::V, VS::V>| #[trigger]
                    search::violates(residual::named(names, gathered@), s) <==> bounds_hold(
                        keys,
                        i as int,
                        equal,
                        higher,
                        after@,
                        k,
                        x,
                        s,
                    ),
            decreases projected@.len() - i,
        {
            let package = &projected[i];
            assert(names.contains(projected@[i as int]@));
            let id = self.place(package);
            let ghost held = gathered@;
            proof {
                lemma_marked(names, changed@, id as int);
                assert(keys[i as int] == names[id as int]);
            }
            if changed[id] {
                let term = match after.get(package) {
                    None => {
                        let term: Term<VS> = Term::Negative(VS::full());
                        assert(term@ =~= bound(equal, higher, after@, k, package@));
                        term
                    },
                    Some(version) => {
                        // The replacement's feasibility does not depend on the old values of
                        // replaced coordinates. Cover their entire dominated ranges, not just
                        // this witness's concrete artifact identities.
                        let mut allowed = (*strictly_higher)(version).complement();
                        if id == seed {
                            allowed =
                            allowed.intersection(&(*same_precedence)(version).complement());
                        }
                        let term: Term<VS> = Term::Positive(allowed);
                        proof {
                            assert(package@ == k <==> id == seed);
                            assert(after@.get(package@) == Some(*version));
                            assert(term@ =~= bound(equal, higher, after@, k, package@));
                        }
                        term
                    },
                };
                gathered.push((id, term));
                proof {
                    assert(residual::named(names, gathered@) =~= residual::named(names, held).push(
                        (keys[i as int], term@),
                    ));
                    assert forall|s: Map<P::V, VS::V>| #[trigger]
                        search::violates(residual::named(names, gathered@), s) <==> bounds_hold(
                        keys,
                        i + 1,
                        equal,
                        higher,
                        after@,
                        k,
                        x,
                        s,
                    ) by {
                        lemma_named_push(names, held, (id, term), s);
                        assert(search::violates(residual::named(names, held), s) <==> bounds_hold(
                            keys,
                            i as int,
                            equal,
                            higher,
                            after@,
                            k,
                            x,
                            s,
                        ));
                        if bounds_hold(keys, i + 1, equal, higher, after@, k, x, s) {
                            assert(x.contains(keys[i as int]));
                        }
                    }
                    assert(keys.contains(keys[i as int]));
                }
            } else {
                proof {
                    assert forall|s: Map<P::V, VS::V>| #[trigger]
                        search::violates(residual::named(names, gathered@), s) <==> bounds_hold(
                        keys,
                        i + 1,
                        equal,
                        higher,
                        after@,
                        k,
                        x,
                        s,
                    ) by {
                        assert(!x.contains(keys[i as int]));
                        assert(search::violates(residual::named(names, held), s) <==> bounds_hold(
                            keys,
                            i as int,
                            equal,
                            higher,
                            after@,
                            k,
                            x,
                            s,
                        ));
                    }
                }
            }
            i += 1;
        }
        let mut c: usize = 0;
        assert(residual::named(names, gathered@) =~= bounds(
            keys,
            keys.len() as int,
            equal,
            higher,
            after@,
            k,
            x,
        ) + guards(rules, 0, all, before@, after@, x));
        while c < self.clauses.len()
            invariant
                self.wf(),
                names == self.packages(),
                names.no_duplicates(),
                names.len() == self.domains@.len(),
                rules == self.rules(),
                all == keys.to_set(),
                all == marked(names, wanted@),
                wanted@.len() == names.len(),
                changed@.len() == names.len(),
                x == marked(names, changed@),
                is_closure(rules, all, before@, after@, k, x),
                c <= self.clauses@.len(),
                residual::in_range(gathered@, names.len() as int),
                residual::named(names, gathered@) == bounds(
                    keys,
                    keys.len() as int,
                    equal,
                    higher,
                    after@,
                    k,
                    x,
                ) + guards(rules, c as int, all, before@, after@, x),
                forall|g: int|
                    0 <= g < gathered@.len() ==> all.contains(names[(#[trigger] gathered@[g]).0 as int]),
                forall|s: Map<P::V, VS::V>| #[trigger]
                    search::violates(residual::named(names, gathered@), s) <==> bounds_hold(
                        keys,
                        keys.len() as int,
                        equal,
                        higher,
                        after@,
                        k,
                        x,
                        s,
                    ) && guards_hold(rules, c as int, all, before@, after@, x, s),
            decreases self.clauses@.len() - c,
        {
            let clause = &self.clauses[c];
            let ghost rule = rules[c as int];
            let ghost held = gathered@;
            assert(residual::in_range(self.clauses@[c as int]@, names.len() as int));
            assert(rule == residual::named(names, clause@));
            if self.touched(clause, &changed) && !self.replaced(clause, &changed, after) {
                proof {
                    assert(touches(rules[c as int], x));
                    assert(is_held(rule, x, all, before@, after@));
                }
                if let Some(g) = self.guard(clause, &changed, &wanted, before) {
                    let id = clause[g].0;
                    let opposite = clause[g].1.negate();
                    assert(clause@[g as int].0 < names.len());
                    gathered.push((id, opposite));
                    proof {
                        assert(is_guard(rules[c as int], x, all, before@, g as int));
                        let first = choose|i: int| is_guard(rule, x, all, before@, i);
                        assert(first == g);
                        assert(residual::named(names, gathered@) =~= residual::named(
                            names,
                            held,
                        ).push((rule[g as int].0, opposite@)));
                        assert(opposite@ =~= rule[g as int].1.complement());
                        assert(residual::named(names, gathered@) =~= bounds(
                            keys,
                            keys.len() as int,
                            equal,
                            higher,
                            after@,
                            k,
                            x,
                        ) + guards(rules, c + 1, all, before@, after@, x));
                        assert forall|s: Map<P::V, VS::V>| #[trigger]
                            search::violates(
                                residual::named(names, gathered@),
                                s,
                            ) <==> bounds_hold(
                            keys,
                            keys.len() as int,
                            equal,
                            higher,
                            after@,
                            k,
                            x,
                            s,
                        ) && guards_hold(rules, c + 1, all, before@, after@, x, s) by {
                            lemma_named_push(names, held, (id, opposite), s);
                            lemma_guards_push(rules, c as int, all, before@, after@, x, g as int, s);
                            assert(search::violates(residual::named(names, held), s)
                                <==> bounds_hold(
                                keys,
                                keys.len() as int,
                                equal,
                                higher,
                                after@,
                                k,
                                x,
                                s,
                            ) && guards_hold(rules, c as int, all, before@, after@, x, s));
                        }
                    }
                }
            } else {
                proof {
                    assert forall|s: Map<P::V, VS::V>| #[trigger]
                        search::violates(residual::named(names, gathered@), s) <==> bounds_hold(
                        keys,
                        keys.len() as int,
                        equal,
                        higher,
                        after@,
                        k,
                        x,
                        s,
                    ) && guards_hold(rules, c + 1, all, before@, after@, x, s) by {
                        assert(search::violates(residual::named(names, held), s) <==> bounds_hold(
                            keys,
                            keys.len() as int,
                            equal,
                            higher,
                            after@,
                            k,
                            x,
                            s,
                        ) && guards_hold(rules, c as int, all, before@, after@, x, s));
                        assert(guards_hold(rules, c + 1, all, before@, after@, x, s)
                            <==> guards_hold(rules, c as int, all, before@, after@, x, s));
                    }
                }
            }
            c += 1;
        }
        let ghost parts = gathered@;
        let merged = residual::normalize(gathered, self.domains.len());
        let mut region: Vec<(P, Term<VS>)> = Vec::new();
        let mut i: usize = 0;
        while i < merged.len()
            invariant
                names == self.packages(),
                names.len() == self.domains@.len(),
                residual::in_range(merged@, names.len() as int),
                i <= merged@.len(),
                region@.len() == i,
                forall|j: int|
                    0 <= j < i ==> (#[trigger] region@[j]).0@ == names[merged@[j].0 as int]
                        && region@[j].1@ == merged@[j].1@,
            decreases merged@.len() - i,
        {
            let id = merged[i].0;
            assert(merged@[i as int].0 < names.len());
            region.push((self.domains[id].package.duplicate(), merged[i].1.duplicate()));
            i += 1;
        }
        proof {
            let described = term::parts(region@);
            assert(described =~= residual::named(names, merged@));
            residual::lemma_normalized_named(names, parts, merged@);
            assert forall|s: Map<P::V, VS::V>| #[trigger] search::violates(
                described,
                s,
            ) <==> in_region(rules, all, before@, after@, equal, higher, k, x, s) by {
                residual::lemma_normalized(names, parts, merged@, s);
                assert(search::violates(residual::named(names, parts), s) <==> bounds_hold(
                    keys,
                    keys.len() as int,
                    equal,
                    higher,
                    after@,
                    k,
                    x,
                    s,
                ) && guards_hold(rules, rules.len() as int, all, before@, after@, x, s));
                lemma_bounds(keys, equal, higher, after@, k, x, s);
            }
            assert forall|i: int| 0 <= i < described.len() implies keys.contains(
                (#[trigger] described[i]).0,
            ) by {
                let id = merged@[i].0 as int;
                assert(residual::is_about(merged@, id));
                assert(residual::is_about(parts, id));
                let g = choose|g: int| 0 <= g < parts.len() && (#[trigger] parts[g]).0 == id;
                assert(all.contains(names[parts[g].0 as int]));
            }
            assert forall|i: int, j: int| 0 <= i < j < described.len() implies (
            #[trigger] described[i]).0 != (#[trigger] described[j]).0 by {
                assert(merged@[i].0 != merged@[j].0);
                assert(merged@[i].0 < names.len() && merged@[j].0 < names.len());
            }
            assert(describes_region(
                rules,
                keys,
                preferred@,
                before@,
                after@,
                equal,
                higher,
                k,
                x,
                described,
            ));
        }
        region
    }
}

proof fn lemma_bounds<K, V>(
    keys: Seq<K>,
    equal: spec_fn(V) -> Set<V>,
    higher: spec_fn(V) -> Set<V>,
    after: Map<K, V>,
    seed: K,
    changed: Set<K>,
    s: Map<K, V>,
)
    ensures
        bounds_hold(keys, keys.len() as int, equal, higher, after, seed, changed, s) <==> forall|
            k: K,
        | #[trigger]
            keys.to_set().contains(k) && changed.contains(k) ==> bound(
                equal,
                higher,
                after,
                seed,
                k,
            ).contains(s.get(k)),
{
    if bounds_hold(keys, keys.len() as int, equal, higher, after, seed, changed, s) {
        assert forall|k: K| #[trigger]
            keys.to_set().contains(k) && changed.contains(k) implies bound(
            equal,
            higher,
            after,
            seed,
            k,
        ).contains(s.get(k)) by {
            let i = choose|i: int| 0 <= i < keys.len() && keys[i] == k;
            assert(changed.contains(keys[i]));
        }
    }
    if forall|k: K| #[trigger]
        keys.to_set().contains(k) && changed.contains(k) ==> bound(
            equal,
            higher,
            after,
            seed,
            k,
        ).contains(s.get(k)) {
        assert forall|j: int|
            0 <= j < keys.len() && changed.contains(#[trigger] keys[j]) implies bound(
            equal,
            higher,
            after,
            seed,
            keys[j],
        ).contains(s.get(keys[j])) by {
            assert(keys.to_set().contains(keys[j]));
        }
    }
}

/// The guard of one more clause.
proof fn lemma_guards_push<K, V>(
    rules: Seq<Clause<K, V>>,
    n: int,
    projected: Set<K>,
    before: Map<K, V>,
    after: Map<K, V>,
    changed: Set<K>,
    i: int,
    s: Map<K, V>,
)
    requires
        0 <= n < rules.len(),
        touches(rules[n], changed),
        !is_replaced(rules[n], changed, after),
        is_guard(rules[n], changed, projected, before, i),
    ensures
        guards_hold(rules, n + 1, projected, before, after, changed, s) <==> guards_hold(
            rules,
            n,
            projected,
            before,
            after,
            changed,
            s,
        ) && !rules[n][i].1.contains(s.get(rules[n][i].0)),
{
    assert forall|j: int| #[trigger]
        is_guard(rules[n], changed, projected, before, j) implies j == i by {
        assert(may_guard(rules[n], changed, projected, before, i));
        assert(may_guard(rules[n], changed, projected, before, j));
    }
}

} // verus!
