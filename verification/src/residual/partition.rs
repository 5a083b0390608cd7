//! Which projected packages can be decided independently of each other.
//!
//! Unit propagation narrows the states that each package may be in. What is left of the clauses
//! then links packages; packages that are not linked do not restrict each other.

use vstd::prelude::*;

use super::{ConstraintModel, Domain};
use crate::error;
use crate::error::PubGrubError;
use crate::package;
use crate::package::Package;
use crate::problem::{Key, VersionOf};
use crate::provider::DependencyProvider;
use crate::residual;
use crate::search;
use crate::search::Clause;
use crate::term;
use crate::term::Term;
use crate::version::Version;
use crate::version_set::VersionSet;

verus! {

/// The states that are left for each package.
pub type Choices<K, V> = Map<K, Seq<Option<V>>>;

/// The states of the list that are in the set.
pub open spec fn kept<V>(values: Seq<Option<V>>, states: Set<Option<V>>) -> Seq<Option<V>> {
    values.filter(|x: Option<V>| states.contains(x))
}

/// Only states in the set are left for the package.
pub open spec fn restrict<K, V>(d: Choices<K, V>, part: (K, Set<Option<V>>)) -> Choices<K, V> {
    d.insert(part.0, kept(d[part.0], part.1))
}

/// What is left where all parts must hold.
pub open spec fn restrict_all<K, V>(d: Choices<K, V>, parts: Clause<K, V>) -> Choices<K, V>
    decreases parts.len(),
{
    if parts.len() == 0 {
        d
    } else {
        restrict(restrict_all(d, parts.drop_last()), parts.last())
    }
}

/// The part holds of no state that is left.
pub open spec fn is_dead<K, V>(d: Choices<K, V>, part: (K, Set<Option<V>>)) -> bool {
    forall|x: Option<V>| #[trigger] d[part.0].contains(x) ==> !part.1.contains(x)
}

/// The part holds of every state that is left.
pub open spec fn is_certain<K, V>(d: Choices<K, V>, part: (K, Set<Option<V>>)) -> bool {
    forall|x: Option<V>| #[trigger] d[part.0].contains(x) ==> part.1.contains(x)
}

/// The clause cannot be violated any more.
pub open spec fn is_idle<K, V>(d: Choices<K, V>, clause: Clause<K, V>) -> bool {
    exists|i: int| 0 <= i < clause.len() && is_dead(d, #[trigger] clause[i])
}

/// The part is still to be decided.
pub open spec fn is_active<K, V>(d: Choices<K, V>, clause: Clause<K, V>, i: int) -> bool {
    !is_idle(d, clause) && 0 <= i < clause.len() && !is_certain(d, clause[i])
}

/// Whatever is chosen violates the clause.
pub open spec fn is_broken<K, V>(d: Choices<K, V>, clause: Clause<K, V>) -> bool {
    &&& !is_idle(d, clause)
    &&& forall|i: int| 0 <= i < clause.len() ==> is_certain(d, #[trigger] clause[i])
}

/// The part is the only one that is still to be decided.
pub open spec fn is_unit<K, V>(d: Choices<K, V>, clause: Clause<K, V>, i: int) -> bool {
    &&& is_active(d, clause, i)
    &&& forall|j: int|
        0 <= j < clause.len() && j != i ==> is_certain(d, #[trigger] clause[j])
}

/// One of the clauses has a single part that is still to be decided, which must not hold.
pub open spec fn narrows<K, V>(
    rules: Seq<Clause<K, V>>,
    d: Choices<K, V>,
    e: Choices<K, V>,
) -> bool {
    exists|c: int, i: int|
        0 <= c < rules.len() && #[trigger] is_unit(d, rules[c], i) && e == restrict(
            d,
            (rules[c][i].0, rules[c][i].1.complement()),
        )
}

/// So many steps of unit propagation lead from one to the other.
pub open spec fn narrows_in<K, V>(
    rules: Seq<Clause<K, V>>,
    d: Choices<K, V>,
    e: Choices<K, V>,
    steps: nat,
) -> bool
    decreases steps,
{
    if steps == 0 {
        d == e
    } else {
        exists|m: Choices<K, V>|
            narrows_in(rules, d, m, (steps - 1) as nat) && #[trigger] narrows(rules, m, e)
    }
}

/// Unit propagation leads from one to the other.
pub open spec fn propagates<K, V>(
    rules: Seq<Clause<K, V>>,
    d: Choices<K, V>,
    e: Choices<K, V>,
) -> bool {
    exists|steps: nat| #[trigger] narrows_in(rules, d, e, steps)
}

/// No choice is left for some package, or some clause is violated whatever is chosen.
pub open spec fn is_refuted<K, V>(rules: Seq<Clause<K, V>>, d: Choices<K, V>) -> bool {
    ||| exists|k: K| #[trigger] d.dom().contains(k) && d[k].len() == 0
    ||| exists|c: int| 0 <= c < rules.len() && is_broken(d, #[trigger] rules[c])
}

/// Nothing is left to propagate.
pub open spec fn is_settled<K, V>(rules: Seq<Clause<K, V>>, d: Choices<K, V>) -> bool {
    &&& !is_refuted(rules, d)
    &&& forall|c: int, i: int| 0 <= c < rules.len() ==> !#[trigger] is_unit(d, rules[c], i)
}

/// The set of packages does not cut through what is to be decided in the clause.
pub open spec fn keeps_together<K, V>(
    d: Choices<K, V>,
    clause: Clause<K, V>,
    packages: Set<K>,
) -> bool {
    forall|i: int, j: int| #[trigger]
        is_active(d, clause, i) && #[trigger] is_active(d, clause, j) ==> (packages.contains(
            clause[i].0,
        ) <==> packages.contains(clause[j].0))
}

/// The set of packages does not cut through what is to be decided in any clause.
pub open spec fn is_closed<K, V>(
    rules: Seq<Clause<K, V>>,
    d: Choices<K, V>,
    packages: Set<K>,
) -> bool {
    forall|c: int| 0 <= c < rules.len() ==> keeps_together(d, #[trigger] rules[c], packages)
}

/// The packages restrict each other, directly or through others.
pub open spec fn linked<K, V>(rules: Seq<Clause<K, V>>, d: Choices<K, V>, a: K, b: K) -> bool {
    forall|packages: Set<K>| #[trigger]
        is_closed(rules, d, packages) ==> (packages.contains(a) <==> packages.contains(b))
}

/// The members that are linked to the package.
pub open spec fn linked_to<K, V>(
    rules: Seq<Clause<K, V>>,
    d: Choices<K, V>,
    members: Seq<K>,
    first: K,
) -> Seq<K> {
    members.filter(|k: K| linked(rules, d, first, k))
}

/// The packages for which a choice is left.
pub open spec fn undecided<K, V>(d: Choices<K, V>, projected: Seq<K>) -> Seq<K> {
    projected.filter(|k: K| d[k].len() > 1)
}

/// The packages for which no choice is left.
pub open spec fn decided<K, V>(d: Choices<K, V>, projected: Seq<K>) -> Seq<K> {
    projected.filter(|k: K| d[k].len() <= 1)
}

/// The list names a member of the first group before any member of the second one.
pub open spec fn comes_before<K>(members: Seq<K>, first: Seq<K>, second: Seq<K>) -> bool {
    exists|i: int|
        0 <= i < members.len() && first.contains(#[trigger] members[i]) && forall|j: int|
            0 <= j <= i ==> !second.contains(#[trigger] members[j])
}

/// The members by groups of linked ones, in the order in which the list names them.
pub open spec fn is_grouping<K, V>(
    rules: Seq<Clause<K, V>>,
    d: Choices<K, V>,
    members: Seq<K>,
    groups: Seq<Seq<K>>,
) -> bool {
    &&& forall|k: K| #[trigger] members.contains(k) ==> exists|g: int|
        0 <= g < groups.len() && (#[trigger] groups[g]).contains(k)
    &&& forall|g: int|
        0 <= g < groups.len() ==> (#[trigger] groups[g]).len() > 0 && groups[g] == linked_to(
            rules,
            d,
            members,
            groups[g][0],
        )
    &&& forall|g: int, h: int|
        0 <= g < h < groups.len() ==> comes_before(
            members,
            #[trigger] groups[g],
            #[trigger] groups[h],
        )
}

/// The packages for which a choice is left, by groups of linked ones, and the others.
pub open spec fn is_split<K, V>(
    rules: Seq<Clause<K, V>>,
    d: Choices<K, V>,
    projected: Seq<K>,
    variable: Seq<Seq<K>>,
    fixed: Seq<K>,
) -> bool {
    &&& is_grouping(rules, d, undecided(d, projected), variable)
    &&& fixed == decided(d, projected)
}

/// What unit propagation leaves decides the partition; one group holds all packages where there is
/// no solution.
pub open spec fn is_partition<K, V>(
    rules: Seq<Clause<K, V>>,
    start: Choices<K, V>,
    projected: Seq<K>,
    variable: Seq<Seq<K>>,
    fixed: Seq<K>,
) -> bool {
    exists|d: Choices<K, V>| #[trigger]
        propagates(rules, start, d) && if is_refuted(rules, d) {
            variable == seq![projected] && fixed == Seq::<K>::empty()
        } else {
            is_settled(rules, d) && is_split(rules, d, projected, variable, fixed)
        }
}

/// Every package is in a state that is left for it.
pub open spec fn chosen_from<K, V>(d: Choices<K, V>, s: Map<K, V>) -> bool {
    forall|k: K| #[trigger] d.dom().contains(k) ==> d[k].contains(s.get(k))
}

pub proof fn lemma_kept<V>(values: Seq<Option<V>>, states: Set<Option<V>>, x: Option<V>)
    ensures
        kept(values, states).contains(x) <==> values.contains(x) && states.contains(x),
        kept(values, states).len() <= values.len(),
        values.contains(x) && !states.contains(x) ==> kept(values, states).len() < values.len(),
    decreases values.len(),
{
    reveal(Seq::filter);
    let list = kept(values, states);
    if values.len() > 0 {
        let rest = kept(values.drop_last(), states);
        lemma_kept(values.drop_last(), states, x);
        assert(values =~= values.drop_last().push(values.last()));
        if values.contains(x) && x != values.last() {
            let i = choose|i: int| 0 <= i < values.len() && values[i] == x;
            assert(values.drop_last()[i] == x);
        }
        if values.drop_last().contains(x) {
            let i = choose|i: int| 0 <= i < values.drop_last().len() && values.drop_last()[i] == x;
            assert(values[i] == x);
        }
        if states.contains(values.last()) {
            assert(list == rest.push(values.last()));
            assert(list[rest.len() as int] == values.last());
            if rest.contains(x) {
                let i = choose|i: int| 0 <= i < rest.len() && rest[i] == x;
                assert(list[i] == x);
            }
            if list.contains(x) && x != values.last() {
                let i = choose|i: int| 0 <= i < list.len() && list[i] == x;
                assert(rest[i] == x);
            }
        }
        assert(values[values.len() - 1] == values.last());
    }
}

/// The clauses are about packages that have choices.
pub open spec fn is_about<K, V>(rules: Seq<Clause<K, V>>, d: Choices<K, V>) -> bool {
    forall|c: int, i: int|
        0 <= c < rules.len() && 0 <= i < rules[c].len() ==> d.dom().contains(
            (#[trigger] rules[c][i]).0,
        )
}

/// The selection takes one of the choices for every package, and violates no clause.
pub open spec fn is_choice<K, V>(
    rules: Seq<Clause<K, V>>,
    d: Choices<K, V>,
    s: Map<K, V>,
) -> bool {
    &&& chosen_from(d, s)
    &&& forall|c: int| 0 <= c < rules.len() ==> !search::violates(#[trigger] rules[c], s)
}

proof fn lemma_narrows<K, V>(
    rules: Seq<Clause<K, V>>,
    d: Choices<K, V>,
    e: Choices<K, V>,
    s: Map<K, V>,
)
    requires
        is_about(rules, d),
        narrows(rules, d, e),
        is_choice(rules, d, s),
    ensures
        is_about(rules, e),
        is_choice(rules, e, s),
{
    let (c, i) = choose|c: int, i: int|
        0 <= c < rules.len() && #[trigger] is_unit(d, rules[c], i) && e == restrict(
            d,
            (rules[c][i].0, rules[c][i].1.complement()),
        );
    let rule = rules[c];
    let k = rule[i].0;
    let x = s.get(k);
    assert(d.dom().contains(rules[c][i].0));
    assert(e.dom() =~= d.dom());
    assert(!rule[i].1.contains(x)) by {
        if rule[i].1.contains(x) {
            assert forall|j: int| 0 <= j < rule.len() implies (#[trigger] rule[j]).1.contains(
                s.get(rule[j].0),
            ) by {
                if j != i {
                    assert(d.dom().contains(rules[c][j].0));
                    assert(is_certain(d, rule[j]));
                }
            }
            assert(search::violates(rule, s));
        }
    }
    lemma_kept(d[k], rule[i].1.complement(), x);
}

proof fn lemma_narrows_in<K, V>(
    rules: Seq<Clause<K, V>>,
    d: Choices<K, V>,
    e: Choices<K, V>,
    s: Map<K, V>,
    steps: nat,
)
    requires
        is_about(rules, d),
        narrows_in(rules, d, e, steps),
        is_choice(rules, d, s),
    ensures
        is_about(rules, e),
        is_choice(rules, e, s),
    decreases steps,
{
    if steps > 0 {
        let m = choose|m: Choices<K, V>|
            narrows_in(rules, d, m, (steps - 1) as nat) && #[trigger] narrows(rules, m, e);
        lemma_narrows_in(rules, d, m, s, (steps - 1) as nat);
        lemma_narrows(rules, m, e, s);
    }
}

/// Unit propagation is about the same packages.
pub proof fn lemma_propagates_dom<K, V>(
    rules: Seq<Clause<K, V>>,
    d: Choices<K, V>,
    e: Choices<K, V>,
)
    requires
        is_about(rules, d),
        propagates(rules, d, e),
    ensures
        e.dom() == d.dom(),
{
    let steps = choose|steps: nat| #[trigger] narrows_in(rules, d, e, steps);
    lemma_narrows_dom(rules, d, e, steps);
}

proof fn lemma_narrows_dom<K, V>(
    rules: Seq<Clause<K, V>>,
    d: Choices<K, V>,
    e: Choices<K, V>,
    steps: nat,
)
    requires
        is_about(rules, d),
        narrows_in(rules, d, e, steps),
    ensures
        e.dom() == d.dom(),
    decreases steps,
{
    if steps > 0 {
        let m = choose|m: Choices<K, V>|
            narrows_in(rules, d, m, (steps - 1) as nat) && #[trigger] narrows(rules, m, e);
        lemma_narrows_dom(rules, d, m, (steps - 1) as nat);
        let (c, i) = choose|c: int, i: int|
            0 <= c < rules.len() && #[trigger] is_unit(m, rules[c], i) && e == restrict(
                m,
                (rules[c][i].0, rules[c][i].1.complement()),
            );
        assert(d.dom().contains(rules[c][i].0));
        assert(e.dom() =~= m.dom());
    }
}

/// Unit propagation rules out no solution.
pub proof fn propagation_keeps_solutions<K, V>(
    rules: Seq<Clause<K, V>>,
    d: Choices<K, V>,
    e: Choices<K, V>,
    s: Map<K, V>,
)
    requires
        is_about(rules, d),
        propagates(rules, d, e),
        is_choice(rules, d, s),
    ensures
        is_about(rules, e),
        is_choice(rules, e, s),
{
    let steps = choose|steps: nat| #[trigger] narrows_in(rules, d, e, steps);
    lemma_narrows_in(rules, d, e, s, steps);
}

/// Where unit propagation finds a contradiction there is no solution.
pub proof fn contradiction_means_no_solution<K, V>(
    rules: Seq<Clause<K, V>>,
    d: Choices<K, V>,
    e: Choices<K, V>,
    s: Map<K, V>,
)
    requires
        is_about(rules, d),
        propagates(rules, d, e),
        is_refuted(rules, e),
    ensures
        !is_choice(rules, d, s),
{
    if is_choice(rules, d, s) {
        propagation_keeps_solutions(rules, d, e, s);
        if exists|c: int| 0 <= c < rules.len() && is_broken(e, #[trigger] rules[c]) {
            let c = choose|c: int| 0 <= c < rules.len() && is_broken(e, #[trigger] rules[c]);
            let rule = rules[c];
            assert forall|j: int| 0 <= j < rule.len() implies (#[trigger] rule[j]).1.contains(
                s.get(rule[j].0),
            ) by {
                assert(e.dom().contains(rules[c][j].0));
                assert(is_certain(e, rule[j]));
            }
            assert(search::violates(rule, s));
        } else {
            let k = choose|k: K| #[trigger] e.dom().contains(k) && e[k].len() == 0;
            assert(e[k].contains(s.get(k)));
        }
    }
}

/// A package for which no choice is left is in the same state in all solutions.
pub proof fn fixed_packages_do_not_vary<K, V>(
    rules: Seq<Clause<K, V>>,
    d: Choices<K, V>,
    e: Choices<K, V>,
    s: Map<K, V>,
    t: Map<K, V>,
    k: K,
)
    requires
        is_about(rules, d),
        propagates(rules, d, e),
        e.dom().contains(k),
        e[k].len() <= 1,
        is_choice(rules, d, s),
        is_choice(rules, d, t),
    ensures
        s.get(k) == t.get(k),
{
    propagation_keeps_solutions(rules, d, e, s);
    propagation_keeps_solutions(rules, d, e, t);
    assert(e[k].contains(s.get(k)));
    assert(e[k].contains(t.get(k)));
}

/// The one selection on the packages, and the other one elsewhere.
pub open spec fn mixed<K, V>(packages: Set<K>, s: Map<K, V>, t: Map<K, V>) -> Map<K, V> {
    Map::new(
        |k: K| if packages.contains(k) { s.dom().contains(k) } else { t.dom().contains(k) },
        |k: K| if packages.contains(k) { s[k] } else { t[k] },
    )
}

/// Packages that are not linked do not restrict each other: two solutions can be mixed wherever
/// linked packages stay together.
pub proof fn solutions_can_be_mixed<K, V>(
    rules: Seq<Clause<K, V>>,
    d: Choices<K, V>,
    packages: Set<K>,
    s: Map<K, V>,
    t: Map<K, V>,
)
    requires
        is_about(rules, d),
        is_closed(rules, d, packages),
        is_choice(rules, d, s),
        is_choice(rules, d, t),
    ensures
        is_choice(rules, d, mixed(packages, s, t)),
{
    let u = mixed(packages, s, t);
    assert forall|k: K| #[trigger] d.dom().contains(k) implies d[k].contains(u.get(k)) by {
        assert(u.get(k) == if packages.contains(k) { s.get(k) } else { t.get(k) });
    }
    assert forall|c: int| 0 <= c < rules.len() implies !search::violates(
        #[trigger] rules[c],
        u,
    ) by {
        let rule = rules[c];
        if search::violates(rule, u) {
            assert(!is_idle(d, rule)) by {
                if is_idle(d, rule) {
                    let i = choose|i: int| 0 <= i < rule.len() && is_dead(d, #[trigger] rule[i]);
                    assert(d.dom().contains(rules[c][i].0));
                    assert(d[rule[i].0].contains(u.get(rule[i].0)));
                    assert(rule[i].1.contains(u.get(rule[i].0)));
                }
            }
            assert(keeps_together(d, rule, packages));
            let inside = exists|i: int| #[trigger]
                is_active(d, rule, i) && packages.contains(rule[i].0);
            let whole = if inside { s } else { t };
            assert forall|j: int| 0 <= j < rule.len() implies (#[trigger] rule[j]).1.contains(
                whole.get(rule[j].0),
            ) by {
                assert(d.dom().contains(rules[c][j].0));
                if !is_certain(d, rule[j]) {
                    assert(is_active(d, rule, j));
                    assert(packages.contains(rule[j].0) == inside);
                    assert(u.get(rule[j].0) == whole.get(rule[j].0));
                } else {
                    assert(d[rule[j].0].contains(whole.get(rule[j].0)));
                }
            }
            assert(search::violates(rule, whole));
        }
    }
}

/// The representatives, each package place pointing to one nearer to its own.
spec fn is_forest(parent: Seq<usize>, depth: Seq<nat>) -> bool {
    &&& depth.len() == parent.len()
    &&& forall|i: int|
        0 <= i < parent.len() ==> (#[trigger] parent[i]) < parent.len() && (parent[i] != i
            ==> depth[parent[i] as int] < depth[i])
}

/// The representative of the place.
spec fn root_of(parent: Seq<usize>, depth: Seq<nat>, i: int) -> int
    decreases (if 0 <= i < depth.len() { depth[i] } else { 0 }),
    when is_forest(parent, depth) && 0 <= i < parent.len()
{
    if parent[i] == i {
        i
    } else {
        root_of(parent, depth, parent[i] as int)
    }
}

proof fn lemma_root_of(parent: Seq<usize>, depth: Seq<nat>, i: int)
    requires
        is_forest(parent, depth),
        0 <= i < parent.len(),
    ensures
        0 <= root_of(parent, depth, i) < parent.len(),
        parent[root_of(parent, depth, i)] == root_of(parent, depth, i),
        root_of(parent, depth, root_of(parent, depth, i)) == root_of(parent, depth, i),
        depth[root_of(parent, depth, i)] <= depth[i],
    decreases depth[i],
{
    if parent[i] != i {
        lemma_root_of(parent, depth, parent[i] as int);
    }
}

/// A shortcut leaves the representatives as they are.
proof fn lemma_shortcut(parent: Seq<usize>, depth: Seq<nat>, id: int, i: int)
    requires
        is_forest(parent, depth),
        0 <= id < parent.len(),
        0 <= i < parent.len(),
    ensures
        is_forest(parent.update(id, parent[parent[id] as int]), depth),
        root_of(parent.update(id, parent[parent[id] as int]), depth, i) == root_of(
            parent,
            depth,
            i,
        ),
    decreases depth[i],
{
    let up = parent[id] as int;
    let shorter = parent.update(id, parent[up]);
    assert(is_forest(shorter, depth)) by {
        assert forall|j: int| 0 <= j < shorter.len() implies (#[trigger] shorter[j])
            < shorter.len() && (shorter[j] != j ==> depth[shorter[j] as int] < depth[j]) by {
            assert(parent[j] < parent.len());
            assert(parent[up] < parent.len());
        }
    }
    if i == id {
        if up != id {
            lemma_shortcut(parent, depth, id, up);
            if parent[up] != up {
                lemma_shortcut(parent, depth, id, parent[up] as int);
            }
        }
    } else if parent[i] != i {
        lemma_shortcut(parent, depth, id, parent[i] as int);
    }
}

/// The representative of the place; the way to it gets shorter.
fn representative(parent: &mut Vec<usize>, id: usize, Ghost(depth): Ghost<Seq<nat>>) -> (r: usize)
    requires
        is_forest(old(parent)@, depth),
        id < old(parent)@.len(),
    ensures
        is_forest(final(parent)@, depth),
        final(parent)@.len() == old(parent)@.len(),
        forall|i: int|
            0 <= i < old(parent)@.len() ==> #[trigger] root_of(final(parent)@, depth, i)
                == root_of(old(parent)@, depth, i),
        r == root_of(old(parent)@, depth, id as int),
        r < old(parent)@.len(),
{
    let ghost given = parent@;
    let mut id = id;
    let ghost wanted = root_of(given, depth, id as int);
    while parent[id] != id
        invariant
            is_forest(parent@, depth),
            parent@.len() == given.len(),
            given == old(parent)@,
            id < given.len(),
            forall|i: int|
                0 <= i < given.len() ==> #[trigger] root_of(parent@, depth, i) == root_of(
                    given,
                    depth,
                    i,
                ),
            root_of(parent@, depth, id as int) == wanted,
        decreases depth[id as int],
    {
        let ghost before = parent@;
        assert(before[id as int] < before.len());
        let up = parent[id];
        assert(before[up as int] < before.len());
        let next = parent[up];
        parent.set(id, next);
        proof {
            assert forall|i: int| 0 <= i < given.len() implies #[trigger] root_of(
                parent@,
                depth,
                i,
            ) == root_of(given, depth, i) by {
                lemma_shortcut(before, depth, id as int, i);
                assert(root_of(before, depth, i) == root_of(given, depth, i));
            }
            lemma_shortcut(before, depth, id as int, id as int);
            assert(root_of(parent@, depth, id as int) == wanted);
        }
        id = next;
    }
    id
}

/// The depths after the one representative came under the other.
spec fn deeper(parent: Seq<usize>, depth: Seq<nat>, a: int, b: int) -> Seq<nat> {
    Seq::new(
        depth.len(),
        |i: int|
            if root_of(parent, depth, i) == b {
                depth[i] + depth[a] + 1
            } else {
                depth[i]
            },
    )
}

/// All places with the one representative come under the other.
proof fn lemma_union(parent: Seq<usize>, depth: Seq<nat>, a: int, b: int, i: int)
    requires
        is_forest(parent, depth),
        0 <= a < parent.len() <= usize::MAX,
        0 <= b < parent.len(),
        parent[a] == a,
        parent[b] == b,
        a != b,
        0 <= i < parent.len(),
    ensures
        is_forest(parent.update(b, a as usize), deeper(parent, depth, a, b)),
        root_of(parent.update(b, a as usize), deeper(parent, depth, a, b), i) == if root_of(
            parent,
            depth,
            i,
        ) == b {
            a
        } else {
            root_of(parent, depth, i)
        },
    decreases depth[i],
{
    let joined = parent.update(b, a as usize);
    let deep = deeper(parent, depth, a, b);
    assert(is_forest(joined, deep)) by {
        assert forall|j: int| 0 <= j < joined.len() implies (#[trigger] joined[j]) < joined.len()
            && (joined[j] != j ==> deep[joined[j] as int] < deep[j]) by {
            assert(parent[j] < parent.len());
            if j != b && parent[j] != j {
                assert(root_of(parent, depth, j) == root_of(parent, depth, parent[j] as int));
            }
        }
    }
    if i == b {
        assert(joined[b] == a);
        assert(joined[a] == a);
        assert(root_of(joined, deep, a) == a);
        assert(root_of(joined, deep, b) == a);
        assert(root_of(parent, depth, b) == b);
    } else if parent[i] != i {
        lemma_union(parent, depth, a, b, parent[i] as int);
    }
}

/// The states that the domains leave for each package.
pub open spec fn choices<P: Package, V>(domains: Seq<Domain<P, V>>) -> Choices<P::V, V> {
    Map::new(
        |k: P::V| residual::names(domains).contains(k),
        |k: P::V| domains[residual::names(domains).index_of(k)].values@,
    )
}

proof fn lemma_choices<P: Package, V>(domains: Seq<Domain<P, V>>, i: int)
    requires
        residual::names(domains).no_duplicates(),
        0 <= i < domains.len(),
    ensures
        choices(domains).dom().contains(domains[i].package@),
        choices(domains)[domains[i].package@] == domains[i].values@,
{
    let names = residual::names(domains);
    assert(names[i] == domains[i].package@);
    assert(names.contains(domains[i].package@));
    let j = names.index_of(domains[i].package@);
    assert(0 <= j < names.len() && names[j] == domains[i].package@);
}

/// Other states for one package.
proof fn lemma_choices_update<P: Package, V>(
    domains: Seq<Domain<P, V>>,
    changed: Seq<Domain<P, V>>,
    i: int,
)
    requires
        residual::names(domains).no_duplicates(),
        0 <= i < domains.len(),
        changed.len() == domains.len(),
        changed[i].package == domains[i].package,
        forall|j: int| 0 <= j < domains.len() && j != i ==> changed[j] == domains[j],
    ensures
        residual::names(changed) == residual::names(domains),
        choices(changed) == choices(domains).insert(domains[i].package@, changed[i].values@),
{
    let names = residual::names(domains);
    assert(residual::names(changed) =~= names);
    let updated = choices(domains).insert(domains[i].package@, changed[i].values@);
    lemma_choices(domains, i);
    assert forall|k: P::V| #[trigger] choices(changed).dom().contains(k) implies choices(
        changed,
    )[k] == updated[k] by {
        let j = names.index_of(k);
        assert(0 <= j < names.len() && names[j] == k);
        assert(domains[j].package@ == k && changed[j].package@ == k);
        lemma_choices(domains, j);
        lemma_choices(changed, j);
        if j != i {
            assert(names[i] != names[j]);
            assert(changed[j] == domains[j]);
        }
    }
    assert(choices(changed) =~= updated);
}

/// The number of states that are left.
spec fn weight<P, V>(domains: Seq<Domain<P, V>>) -> nat
    decreases domains.len(),
{
    if domains.len() == 0 {
        0
    } else {
        weight(domains.drop_last()) + domains.last().values@.len()
    }
}

proof fn lemma_weight<P, V>(domains: Seq<Domain<P, V>>, changed: Seq<Domain<P, V>>, i: int)
    requires
        0 <= i < domains.len(),
        changed.len() == domains.len(),
        forall|j: int| 0 <= j < domains.len() && j != i ==> changed[j] == domains[j],
    ensures
        weight(changed) - weight(domains) == changed[i].values@.len() - domains[i].values@.len(),
    decreases domains.len(),
{
    if i < domains.len() - 1 {
        lemma_weight(domains.drop_last(), changed.drop_last(), i);
        assert(changed.last() == domains.last());
    } else {
        assert(changed.drop_last() =~= domains.drop_last());
    }
}

/// The states of which the term holds, or those of which it does not.
fn retain<VS: VersionSet>(values: &Vec<Option<VS::V>>, term: &Term<VS>, holding: bool) -> (r: Vec<
    Option<VS::V>,
>)
    ensures
        r@ == kept(values@, if holding { term@ } else { term@.complement() }),
{
    let ghost states = if holding { term@ } else { term@.complement() };
    let mut left: Vec<Option<VS::V>> = Vec::new();
    let mut i: usize = 0;
    proof {
        reveal(Seq::filter);
        assert(values@.take(0) =~= Seq::empty());
    }
    while i < values.len()
        invariant
            i <= values@.len(),
            states == if holding { term@ } else { term@.complement() },
            left@ == kept(values@.take(i as int), states),
        decreases values@.len() - i,
    {
        if residual::matches_state(term, &values[i]) == holding {
            let value = match &values[i] {
                Some(v) => Some(v.duplicate()),
                None => None,
            };
            left.push(value);
        }
        proof {
            reveal(Seq::filter);
            assert(values@.take(i + 1).drop_last() =~= values@.take(i as int));
            assert(values@.take(i + 1).last() == values@[i as int]);
        }
        i += 1;
    }
    assert(values@.take(i as int) =~= values@);
    left
}

/// The index is in the list.
spec fn lists(indices: Seq<usize>, i: int) -> bool {
    exists|m: int| 0 <= m < indices.len() && (#[trigger] indices[m]) == i
}

/// The list holds the places of the parts that are still to be decided, in ascending order.
spec fn lists_active<K, V>(d: Choices<K, V>, clause: Clause<K, V>, active: Seq<usize>) -> bool {
    &&& forall|m: int, n: int|
        0 <= m < n < active.len() ==> (#[trigger] active[m]) < (#[trigger] active[n])
    &&& forall|i: int| #[trigger] is_active(d, clause, i) <==> lists(active, i)
}

/// The places of the terms that are still to be decided, unless the clause cannot be violated any
/// more.
fn residual<P: Package, VS: VersionSet>(
    clause: &Vec<(usize, Term<VS>)>,
    domains: &Vec<Domain<P, VS::V>>,
) -> (r: Option<Vec<usize>>)
    requires
        residual::names(domains@).no_duplicates(),
        residual::in_range(clause@, domains@.len() as int),
    ensures
        ({
            let d = choices(domains@);
            let rule = residual::named(residual::names(domains@), clause@);
            match r {
                None => is_idle(d, rule),
                Some(active) => !is_idle(d, rule) && lists_active(d, rule, active@),
            }
        }),
{
    let ghost d = choices(domains@);
    let ghost rule = residual::named(residual::names(domains@), clause@);
    let mut active: Vec<usize> = Vec::new();
    let mut index: usize = 0;
    while index < clause.len()
        invariant
            residual::names(domains@).no_duplicates(),
            residual::in_range(clause@, domains@.len() as int),
            d == choices(domains@),
            rule == residual::named(residual::names(domains@), clause@),
            index <= clause@.len(),
            forall|i: int| 0 <= i < index ==> !is_dead(d, #[trigger] rule[i]),
            forall|m: int| 0 <= m < active@.len() ==> (#[trigger] active@[m]) < index,
            forall|m: int, n: int|
                0 <= m < n < active@.len() ==> (#[trigger] active@[m]) < (#[trigger] active@[n]),
            forall|i: int|
                0 <= i < index ==> (!is_certain(d, #[trigger] rule[i]) <==> lists(active@, i)),
        decreases clause@.len() - index,
    {
        let id = clause[index].0;
        let term = &clause[index].1;
        assert(clause@[index as int].0 < domains@.len());
        proof {
            lemma_choices(domains@, id as int);
        }
        let values = &domains[id].values;
        let ghost part = rule[index as int];
        assert(part == (domains@[id as int].package@, term@));
        let mut matching: usize = 0;
        let mut j: usize = 0;
        while j < values.len()
            invariant
                j <= values@.len(),
                matching <= j,
                matching == 0 <==> forall|m: int|
                    0 <= m < j ==> !term@.contains(#[trigger] values@[m]),
                matching == j <==> forall|m: int|
                    0 <= m < j ==> term@.contains(#[trigger] values@[m]),
            decreases values@.len() - j,
        {
            if residual::matches_state(term, &values[j]) {
                matching += 1;
            }
            j += 1;
        }
        proof {
            assert(is_dead(d, part) <==> matching == 0) by {
                if matching == 0 {
                    assert forall|x: Option<VS::V>| #[trigger] d[part.0].contains(
                        x,
                    ) implies !part.1.contains(x) by {
                        let m = choose|m: int| 0 <= m < values@.len() && values@[m] == x;
                        assert(!term@.contains(values@[m]));
                    }
                } else {
                    let m = choose|m: int| 0 <= m < j && term@.contains(#[trigger] values@[m]);
                    assert(d[part.0].contains(values@[m]));
                }
            }
            assert(is_certain(d, part) <==> matching == values@.len()) by {
                if matching == values@.len() {
                    assert forall|x: Option<VS::V>| #[trigger] d[part.0].contains(
                        x,
                    ) implies part.1.contains(x) by {
                        let m = choose|m: int| 0 <= m < values@.len() && values@[m] == x;
                        assert(term@.contains(values@[m]));
                    }
                } else {
                    let m = choose|m: int| 0 <= m < j && !term@.contains(#[trigger] values@[m]);
                    assert(d[part.0].contains(values@[m]));
                }
            }
        }
        if matching == 0 {
            assert(is_dead(d, rule[index as int]));
            return None;
        }
        let ghost before = active@;
        if matching < values.len() {
            active.push(index);
            proof {
                assert(active@[before.len() as int] == index);
                assert forall|i: int| 0 <= i < index + 1 implies (!is_certain(
                    d,
                    #[trigger] rule[i],
                ) <==> lists(active@, i)) by {
                    if i < index && lists(before, i) {
                        let m = choose|m: int|
                            0 <= m < before.len() && (#[trigger] before[m]) == i;
                        assert(active@[m] == i);
                    }
                    if i < index && lists(active@, i) {
                        let m = choose|m: int|
                            0 <= m < active@.len() && (#[trigger] active@[m]) == i;
                        assert(before[m] == i);
                    }
                }
            }
        }
        index += 1;
    }
    proof {
        assert(!is_idle(d, rule));
        assert forall|i: int| #[trigger] is_active(d, rule, i) <==> lists(active@, i) by {
            if 0 <= i < rule.len() {
                assert(!is_certain(d, rule[i]) <==> lists(active@, i));
            }
        }
    }
    Some(active)
}

/// Only states of which the term holds, or of which it does not, are left for the package.
fn narrow<P: Package, VS: VersionSet>(
    domains: &mut Vec<Domain<P, VS::V>>,
    id: usize,
    term: &Term<VS>,
    holding: bool,
)
    requires
        residual::names(old(domains)@).no_duplicates(),
        id < old(domains)@.len(),
    ensures
        final(domains)@.len() == old(domains)@.len(),
        residual::names(final(domains)@) == residual::names(old(domains)@),
        choices(final(domains)@) == restrict(
            choices(old(domains)@),
            (
                old(domains)@[id as int].package@,
                if holding {
                    term@
                } else {
                    term@.complement()
                },
            ),
        ),
        weight(final(domains)@) - weight(old(domains)@) == final(domains)@[id as int].values@.len()
            - old(domains)@[id as int].values@.len(),
{
    let ghost before = domains@;
    let left = retain(&domains[id].values, term, holding);
    domains[id].values = left;
    proof {
        lemma_choices(before, id as int);
        lemma_choices_update(before, domains@, id as int);
        lemma_weight(before, domains@, id as int);
    }
}

impl<P: Package, VS: VersionSet> ConstraintModel<P, VS> {
    /// The place of the package.
    pub(crate) fn place(&self, package: &P) -> (r: usize)
        requires
            self.packages().contains(package@),
        ensures
            r < self.packages().len(),
            self.packages()[r as int] == package@,
    {
        let n = self.domains.len();
        let mut i: usize = 0;
        proof {
            let j = choose|j: int| 0 <= j < self.packages().len() && self.packages()[j] == package@;
            assert(0 <= j < n);
        }
        while !self.domains[i].package.same(package)
            invariant
                n == self.domains@.len(),
                self.packages().contains(package@),
                i < self.domains@.len(),
                forall|j: int| 0 <= j < i ==> (#[trigger] self.domains@[j]).package@ != package@,
            decreases self.domains@.len() - i,
        {
            proof {
                let j = choose|j: int|
                    0 <= j < self.packages().len() && self.packages()[j] == package@;
                assert(self.domains@[j].package@ == package@);
            }
            i += 1;
        }
        i
    }

    /// The domains, with the states of which all requirements hold.
    fn required_domains(
        &self,
        root: &P,
        version: &VS::V,
        required: &Vec<(P, Term<VS>)>,
    ) -> (r: Vec<Domain<P, VS::V>>)
        requires
            self.wf(),
            self.packages().contains(root@),
            forall|i: int|
                0 <= i < required@.len() ==> self.packages().contains((#[trigger] required@[i]).0@),
        ensures
            r@.len() == self.domains().len(),
            residual::names(r@) == self.packages(),
            choices(r@) == restrict_all(
                choices(self.domains()),
                seq![(root@, term::only(*version))] + term::parts(required@),
            ),
    {
        let ghost packages = self.packages();
        let ghost all = choices(self.domains@);
        let mut domains: Vec<Domain<P, VS::V>> = Vec::new();
        let mut i: usize = 0;
        while i < self.domains.len()
            invariant
                i <= self.domains@.len(),
                domains@.len() == i,
                forall|j: int|
                    0 <= j < i ==> (#[trigger] domains@[j]).package@ == self.domains@[j].package@
                        && domains@[j].values@ == self.domains@[j].values@,
            decreases self.domains@.len() - i,
        {
            let everything: Term<VS> = Term::any();
            let values = retain(&self.domains[i].values, &everything, true);
            proof {
                lemma_keeps_all(self.domains@[i as int].values@);
            }
            domains.push(Domain { package: self.domains[i].package.duplicate(), values });
            i += 1;
        }
        proof {
            assert(residual::names(domains@) =~= packages);
            assert forall|k: P::V| #[trigger] choices(domains@).dom().contains(k) implies choices(
                domains@,
            )[k] == all[k] by {
                let j = packages.index_of(k);
                assert(0 <= j < packages.len() && packages[j] == k);
                lemma_choices(domains@, j);
                lemma_choices(self.domains@, j);
            }
            assert(choices(domains@) =~= all);
        }
        let ghost parts = seq![(root@, term::only(*version))] + term::parts(required@);
        let exact = Term::Positive(VS::singleton(version.duplicate()));
        let id = self.place(root);
        narrow::<P, VS>(&mut domains, id, &exact, true);
        proof {
            assert(exact@ =~= term::only(*version));
            assert(parts.take(1).drop_last() =~= Seq::empty());
            assert(parts.take(1).last() == (root@, term::only(*version)));
            assert(restrict_all(all, parts.take(1).drop_last()) == all);
            assert(choices(domains@) == restrict_all(all, parts.take(1)));
        }
        let mut i: usize = 0;
        while i < required.len()
            invariant
                packages == self.packages(),
                packages.no_duplicates(),
                i <= required@.len(),
                residual::names(domains@) == packages,
                domains@.len() == packages.len(),
                parts == seq![(root@, term::only(*version))] + term::parts(required@),
                choices(domains@) == restrict_all(all, parts.take(i + 1)),
                forall|i: int|
                    0 <= i < required@.len() ==> self.packages().contains(
                        (#[trigger] required@[i]).0@,
                    ),
            decreases required@.len() - i,
        {
            assert(self.packages().contains(required@[i as int].0@));
            let id = self.place(&required[i].0);
            assert(packages[id as int] == domains@[id as int].package@);
            narrow(&mut domains, id, &required[i].1, true);
            proof {
                assert(parts.take(i + 2).drop_last() =~= parts.take(i + 1));
                assert(parts.take(i + 2).last() == (
                    required@[i as int].0@,
                    required@[i as int].1@,
                ));
            }
            i += 1;
        }
        assert(parts.take(i + 1) =~= parts);
        domains
    }

    /// Unit propagation on finite domains; `None` where it finds a contradiction.
    fn propagate<DP: DependencyProvider<P = P, VS = VS>>(
        &self,
        provider: &DP,
        given: Vec<Domain<P, VS::V>>,
    ) -> (r: Result<Option<Vec<Domain<P, VS::V>>>, PubGrubError<DP>>)
        requires
            self.wf(),
            given@.len() == self.domains().len(),
            residual::names(given@) == self.packages(),
        ensures
            match r {
                Ok(Some(domains)) => {
                    &&& domains@.len() == self.domains().len()
                    &&& residual::names(domains@) == self.packages()
                    &&& propagates(self.rules(), choices(given@), choices(domains@))
                    &&& is_settled(self.rules(), choices(domains@))
                },
                Ok(None) => is_contradictory(self.rules(), choices(given@)),
                Err(error) => error.raised_by(*provider) && provider.may_fail(),
            },
            error::heeds_cancellation(*provider, r),
    {
        let ghost rules = self.rules();
        let ghost packages = self.packages();
        let ghost start = choices(given@);
        let mut domains = given;
        proof {
            assert(narrows_in(rules, start, start, 0));
        }
        loop
            invariant
                self.wf(),
                rules == self.rules(),
                packages == self.packages(),
                packages.no_duplicates(),
                packages.len() == self.domains@.len(),
                start == choices(given@),
                domains@.len() == packages.len(),
                residual::names(domains@) == packages,
                propagates(rules, start, choices(domains@)),
            decreases weight(domains@),
        {
            let answer = provider.should_cancel();
            if let Err(source) = answer {
                return Err(PubGrubError::ErrorInShouldCancel(source));
            }
            assert(error::may_go_on(*provider)) by {
                assert(answer == Ok::<(), DP::Err>(answer->Ok_0));
            }
            let ghost d = choices(domains@);
            let mut i: usize = 0;
            while i < domains.len()
                invariant
                    error::may_go_on(*provider),
                    i <= domains@.len(),
                    residual::names(domains@) == packages,
                    packages.no_duplicates(),
                    d == choices(domains@),
                    start == choices(given@),
                    rules == self.rules(),
                    propagates(rules, start, d),
                    forall|j: int| 0 <= j < i ==> (#[trigger] domains@[j]).values@.len() > 0,
                decreases domains@.len() - i,
            {
                if domains[i].values.len() == 0 {
                    proof {
                        lemma_choices(domains@, i as int);
                        let k = domains@[i as int].package@;
                        assert(d.dom().contains(k) && d[k].len() == 0);
                        assert(is_refuted(rules, d));
                    }
                    return Ok(None);
                }
                i += 1;
            }
            proof {
                assert forall|k: P::V| #[trigger] d.dom().contains(k) implies d[k].len() > 0 by {
                    let j = packages.index_of(k);
                    assert(0 <= j < packages.len() && packages[j] == k);
                    lemma_choices(domains@, j);
                    assert(domains@[j].values@.len() > 0);
                }
            }
            let ghost heavy = weight(domains@);
            let mut changed = false;
            let mut c: usize = 0;
            while c < self.clauses.len()
                invariant
                    error::may_go_on(*provider),
                    self.wf(),
                    rules == self.rules(),
                    packages == self.packages(),
                    packages.no_duplicates(),
                    packages.len() == self.domains@.len(),
                    start == choices(given@),
                    c <= self.clauses@.len(),
                    domains@.len() == packages.len(),
                    residual::names(domains@) == packages,
                    propagates(rules, start, choices(domains@)),
                    changed ==> weight(domains@) < heavy,
                    !changed ==> choices(domains@) == d && weight(domains@) == heavy,
                    !changed ==> forall|b: int|
                        0 <= b < c ==> !is_broken(d, #[trigger] rules[b]),
                    !changed ==> forall|b: int, i: int|
                        0 <= b < c ==> !#[trigger] is_unit(d, rules[b], i),
                decreases self.clauses@.len() - c,
            {
                let ghost e = choices(domains@);
                let ghost rule = rules[c as int];
                let clause = &self.clauses[c];
                assert(residual::in_range(self.clauses@[c as int]@, domains@.len() as int));
                assert(rule == residual::named(packages, clause@));
                let active = residual(clause, &domains);
                match active {
                    None => {
                        assert(!is_broken(e, rule));
                        assert forall|i: int| !#[trigger] is_unit(e, rule, i) by {}
                    },
                    Some(active) => {
                        if active.len() == 0 {
                            proof {
                                assert forall|i: int| 0 <= i < rule.len() implies is_certain(
                                    e,
                                    #[trigger] rule[i],
                                ) by {
                                    assert(!is_active(e, rule, i));
                                }
                                assert(is_broken(e, rules[c as int]));
                                assert(is_refuted(rules, e));
                            }
                            return Ok(None);
                        }
                        let index = active[0];
                        proof {
                            assert(lists(active@, active@[0] as int));
                            assert(is_active(e, rule, index as int));
                        }
                        if active.len() == 1 {
                            let ghost before = domains@;
                            let id = clause[index].0;
                            narrow(&mut domains, id, &clause[index].1, false);
                            proof {
                                let part = rule[index as int];
                                assert(is_unit(e, rule, index as int)) by {
                                    assert forall|j: int|
                                        0 <= j < rule.len() && j != index implies is_certain(
                                        e,
                                        #[trigger] rule[j],
                                    ) by {
                                        assert(!lists(active@, j));
                                        assert(!is_active(e, rule, j));
                                    }
                                }
                                assert(part.0 == before[id as int].package@);
                                assert(choices(domains@) == restrict(
                                    e,
                                    (part.0, part.1.complement()),
                                ));
                                assert(is_unit(e, rules[c as int], index as int));
                                assert(narrows(rules, e, choices(domains@)));
                                lemma_propagates_further(rules, start, e, choices(domains@));
                                lemma_choices(before, id as int);
                                lemma_choices(domains@, id as int);
                                assert(residual::names(domains@)[id as int] == packages[id as int]);
                                let x = choose|x: Option<VS::V>| #[trigger]
                                    e[part.0].contains(x) && part.1.contains(x);
                                lemma_kept(e[part.0], part.1.complement(), x);
                            }
                            changed = true;
                        } else {
                            proof {
                                assert(lists(active@, active@[1] as int));
                                assert(is_active(e, rule, active@[1] as int));
                                assert(active@[0] < active@[1]);
                                assert forall|i: int| !#[trigger] is_unit(e, rule, i) by {
                                    if is_unit(e, rule, i) {
                                        if i != active@[0] {
                                            assert(is_certain(e, rule[active@[0] as int]));
                                        } else {
                                            assert(is_certain(e, rule[active@[1] as int]));
                                        }
                                    }
                                }
                                assert(!is_broken(e, rule)) by {
                                    assert(!is_certain(e, rule[active@[0] as int]));
                                }
                            }
                        }
                    },
                }
                c += 1;
            }
            if !changed {
                proof {
                    assert(!is_refuted(rules, d));
                    assert(is_settled(rules, d));
                }
                return Ok(Some(domains));
            }
        }
    }
}

/// Unit propagation leads to a contradiction.
pub open spec fn is_contradictory<K, V>(rules: Seq<Clause<K, V>>, start: Choices<K, V>) -> bool {
    exists|d: Choices<K, V>| #[trigger] propagates(rules, start, d) && is_refuted(rules, d)
}

proof fn lemma_keeps_all<V>(values: Seq<Option<V>>)
    ensures
        kept(values, Set::full()) == values,
    decreases values.len(),
{
    reveal(Seq::filter);
    if values.len() > 0 {
        lemma_keeps_all(values.drop_last());
        assert(values =~= values.drop_last().push(values.last()));
    }
}

proof fn lemma_propagates_further<K, V>(
    rules: Seq<Clause<K, V>>,
    d: Choices<K, V>,
    m: Choices<K, V>,
    e: Choices<K, V>,
)
    requires
        propagates(rules, d, m),
        narrows(rules, m, e),
    ensures
        propagates(rules, d, e),
{
    let steps = choose|steps: nat| #[trigger] narrows_in(rules, d, m, steps);
    assert(narrows_in(rules, d, e, steps + 1));
}

/// Places with the same representative are on the same side of the set.
spec fn roots_agree<K>(
    parent: Seq<usize>,
    depth: Seq<nat>,
    names: Seq<K>,
    packages: Set<K>,
) -> bool {
    forall|x: int, y: int|
        0 <= x < parent.len() && 0 <= y < parent.len() && #[trigger] root_of(parent, depth, x)
            == #[trigger] root_of(parent, depth, y) ==> (packages.contains(names[x])
            <==> packages.contains(names[y]))
}

/// Places with the same representative are linked.
spec fn roots_are_linked<K, V>(
    parent: Seq<usize>,
    depth: Seq<nat>,
    names: Seq<K>,
    rules: Seq<Clause<K, V>>,
    d: Choices<K, V>,
) -> bool {
    forall|packages: Set<K>| #[trigger]
        is_closed(rules, d, packages) ==> roots_agree(parent, depth, names, packages)
}

/// The first of the listed terms are about places with the same representative.
spec fn roots_join<VS>(
    parent: Seq<usize>,
    depth: Seq<nat>,
    clause: Seq<(usize, Term<VS>)>,
    active: Seq<usize>,
    n: int,
) -> bool {
    forall|m: int|
        0 <= m < n ==> root_of(
            parent,
            depth,
            clause[(#[trigger] active[m]) as int].0 as int,
        ) == root_of(parent, depth, clause[active[0] as int].0 as int)
}

/// What is to be decided in the clause is about places with the same representative.
spec fn joins_active<K, VS: VersionSet>(
    parent: Seq<usize>,
    depth: Seq<nat>,
    clause: Seq<(usize, Term<VS>)>,
    d: Choices<K, VS::V>,
    rule: Clause<K, VS::V>,
) -> bool {
    forall|i: int, j: int| #[trigger]
        is_active(d, rule, i) && #[trigger] is_active(d, rule, j) ==> root_of(
            parent,
            depth,
            clause[i].0 as int,
        ) == root_of(parent, depth, clause[j].0 as int)
}

/// Places that had the same representative still have one.
spec fn coarser(before: Seq<usize>, deep: Seq<nat>, after: Seq<usize>, depth: Seq<nat>) -> bool {
    &&& before.len() == after.len()
    &&& forall|x: int, y: int|
        0 <= x < before.len() && 0 <= y < before.len() && root_of(before, deep, x) == root_of(
            before,
            deep,
            y,
        ) ==> #[trigger] root_of(after, depth, x) == #[trigger] root_of(after, depth, y)
}

proof fn lemma_coarser<K, VS: VersionSet>(
    before: Seq<usize>,
    deep: Seq<nat>,
    after: Seq<usize>,
    depth: Seq<nat>,
    clause: Seq<(usize, Term<VS>)>,
    d: Choices<K, VS::V>,
    rule: Clause<K, VS::V>,
)
    requires
        coarser(before, deep, after, depth),
        residual::in_range(clause, before.len() as int),
        clause.len() == rule.len(),
        joins_active(before, deep, clause, d, rule),
    ensures
        joins_active(after, depth, clause, d, rule),
{
    assert forall|i: int, j: int| #[trigger]
        is_active(d, rule, i) && #[trigger] is_active(d, rule, j) implies root_of(
        after,
        depth,
        clause[i].0 as int,
    ) == root_of(after, depth, clause[j].0 as int) by {
        assert(clause[i].0 < before.len() && clause[j].0 < before.len());
        assert(root_of(before, deep, clause[i].0 as int) == root_of(
            before,
            deep,
            clause[j].0 as int,
        ));
    }
}

/// Joining two linked places leaves all places with the same representative linked.
proof fn lemma_join<K, V>(
    parent: Seq<usize>,
    depth: Seq<nat>,
    names: Seq<K>,
    rules: Seq<Clause<K, V>>,
    d: Choices<K, V>,
    x: int,
    y: int,
)
    requires
        is_forest(parent, depth),
        parent.len() <= usize::MAX,
        0 <= x < parent.len(),
        0 <= y < parent.len(),
        roots_are_linked(parent, depth, names, rules, d),
        linked(rules, d, names[x], names[y]),
        root_of(parent, depth, x) != root_of(parent, depth, y),
    ensures
        ({
            let a = root_of(parent, depth, x);
            let b = root_of(parent, depth, y);
            let after = parent.update(b, a as usize);
            let deep = deeper(parent, depth, a, b);
            &&& is_forest(after, deep)
            &&& roots_are_linked(after, deep, names, rules, d)
            &&& coarser(parent, depth, after, deep)
            &&& root_of(after, deep, x) == root_of(after, deep, y)
        }),
{
    let a = root_of(parent, depth, x);
    let b = root_of(parent, depth, y);
    let after = parent.update(b, a as usize);
    let deep = deeper(parent, depth, a, b);
    lemma_root_of(parent, depth, x);
    lemma_root_of(parent, depth, y);
    assert forall|i: int| 0 <= i < parent.len() implies #[trigger] root_of(after, deep, i) == if root_of(
        parent,
        depth,
        i,
    ) == b {
        a
    } else {
        root_of(parent, depth, i)
    } by {
        lemma_union(parent, depth, a, b, i);
    }
    lemma_union(parent, depth, a, b, x);
    lemma_union(parent, depth, a, b, y);
    assert forall|packages: Set<K>| #[trigger] is_closed(rules, d, packages) implies roots_agree(
        after,
        deep,
        names,
        packages,
    ) by {
        assert(roots_agree(parent, depth, names, packages));
        assert forall|p: int, q: int|
            0 <= p < after.len() && 0 <= q < after.len() && #[trigger] root_of(after, deep, p)
                == #[trigger] root_of(after, deep, q) implies (packages.contains(names[p])
            <==> packages.contains(names[q])) by {
            let rp = root_of(parent, depth, p);
            let rq = root_of(parent, depth, q);
            if rp != rq {
                if rp == b {
                    assert(rp == root_of(parent, depth, y));
                    assert(rq == root_of(parent, depth, x));
                } else {
                    assert(rp == root_of(parent, depth, x));
                    assert(rq == root_of(parent, depth, y));
                }
            }
        }
    }
}

impl<P: Package, VS: VersionSet> ConstraintModel<P, VS> {
    /// The places of the packages, with linked ones under the same representative.
    fn links(&self, domains: &Vec<Domain<P, VS::V>>) -> (r: (Vec<usize>, Ghost<Seq<nat>>))
        requires
            self.wf(),
            domains@.len() == self.domains().len(),
            residual::names(domains@) == self.packages(),
        ensures
            r.0@.len() == domains@.len(),
            is_forest(r.0@, r.1@),
            forall|x: int, y: int|
                0 <= x < domains@.len() && 0 <= y < domains@.len() ==> (#[trigger] root_of(
                    r.0@,
                    r.1@,
                    x,
                ) == #[trigger] root_of(r.0@, r.1@, y) <==> linked(
                    self.rules(),
                    choices(domains@),
                    self.packages()[x],
                    self.packages()[y],
                )),
    {
        let ghost rules = self.rules();
        let ghost names = self.packages();
        let ghost d = choices(domains@);
        let n = domains.len();
        let mut parent: Vec<usize> = Vec::new();
        let mut i: usize = 0;
        while i < domains.len()
            invariant
                i <= domains@.len(),
                parent@.len() == i,
                forall|j: int| 0 <= j < i ==> (#[trigger] parent@[j]) == j,
            decreases domains@.len() - i,
        {
            parent.push(i);
            i += 1;
        }
        let ghost mut depth: Seq<nat> = Seq::new(parent@.len(), |i: int| 0nat);
        proof {
            assert(is_forest(parent@, depth));
            assert forall|x: int| 0 <= x < parent@.len() implies #[trigger] root_of(
                parent@,
                depth,
                x,
            ) == x by {
                assert(parent@[x] == x);
            }
            assert forall|packages: Set<P::V>| #[trigger]
                is_closed(rules, d, packages) implies roots_agree(
                parent@,
                depth,
                names,
                packages,
            ) by {}
        }
        let mut c: usize = 0;
        while c < self.clauses.len()
            invariant
                self.wf(),
                rules == self.rules(),
                names == self.packages(),
                d == choices(domains@),
                domains@.len() == names.len(),
                names.len() == self.domains@.len(),
                names.len() == n,
                residual::names(domains@) == names,
                c <= self.clauses@.len(),
                parent@.len() == domains@.len(),
                is_forest(parent@, depth),
                roots_are_linked(parent@, depth, names, rules, d),
                forall|b: int|
                    0 <= b < c ==> joins_active(
                        parent@,
                        depth,
                        (#[trigger] self.clauses@[b])@,
                        d,
                        rules[b],
                    ),
            decreases self.clauses@.len() - c,
        {
            let clause = &self.clauses[c];
            let ghost rule = rules[c as int];
            assert(residual::in_range(self.clauses@[c as int]@, domains@.len() as int));
            assert(rule == residual::named(names, clause@));
            let active = residual(clause, domains);
            match active {
                None => {
                    assert(joins_active(parent@, depth, clause@, d, rule));
                },
                Some(active) => {
                    proof {
                        assert forall|m: int| 0 <= m < active@.len() implies is_active(
                            d,
                            rule,
                            (#[trigger] active@[m]) as int,
                        ) by {
                            assert(lists(active@, active@[m] as int));
                        }
                    }
                    let mut m: usize = 1;
                    while m < active.len()
                        invariant
                            self.wf(),
                            rules == self.rules(),
                            names == self.packages(),
                            names.len() == self.domains@.len(),
                            names.len() == n,
                            c < self.clauses@.len(),
                            clause@ == self.clauses@[c as int]@,
                            rule == rules[c as int],
                            rule == residual::named(names, clause@),
                            residual::in_range(clause@, parent@.len() as int),
                            parent@.len() == names.len(),
                            1 <= m,
                            is_forest(parent@, depth),
                            roots_are_linked(parent@, depth, names, rules, d),
                            forall|b: int|
                                0 <= b < c ==> joins_active(
                                    parent@,
                                    depth,
                                    (#[trigger] self.clauses@[b])@,
                                    d,
                                    rules[b],
                                ),
                            forall|m: int|
                                0 <= m < active@.len() ==> is_active(
                                    d,
                                    rule,
                                    (#[trigger] active@[m]) as int,
                                ),
                            roots_join(
                                parent@,
                                depth,
                                clause@,
                                active@,
                                if m <= active@.len() { m as int } else { active@.len() as int },
                            ),
                        decreases active@.len() - m,
                    {
                        let ghost before = parent@;
                        let ghost deep = depth;
                        proof {
                            assert(is_active(d, rule, active@[0] as int));
                            assert(is_active(d, rule, active@[m as int] as int));
                        }
                        let x = clause[active[0]].0;
                        let y = clause[active[m]].0;
                        assert(x < parent@.len() && y < parent@.len());
                        let a = representative(&mut parent, x, Ghost(depth));
                        let b = representative(&mut parent, y, Ghost(depth));
                        let ghost middle = parent@;
                        proof {
                            assert(roots_are_linked(middle, depth, names, rules, d)) by {
                                assert forall|packages: Set<P::V>| #[trigger]
                                    is_closed(rules, d, packages) implies roots_agree(
                                    middle,
                                    depth,
                                    names,
                                    packages,
                                ) by {
                                    assert(roots_agree(before, depth, names, packages));
                                    assert forall|p: int, q: int|
                                        0 <= p < middle.len() && 0 <= q < middle.len()
                                            && #[trigger] root_of(middle, depth, p)
                                            == #[trigger] root_of(middle, depth, q) implies (
                                    packages.contains(names[p]) <==> packages.contains(
                                        names[q],
                                    )) by {
                                        assert(root_of(before, depth, p) == root_of(
                                            before,
                                            depth,
                                            q,
                                        ));
                                    }
                                }
                            }
                            assert(linked(rules, d, names[x as int], names[y as int])) by {
                                assert forall|packages: Set<P::V>| #[trigger]
                                    is_closed(rules, d, packages) implies (packages.contains(
                                    names[x as int],
                                ) <==> packages.contains(names[y as int])) by {
                                    assert(keeps_together(d, rules[c as int], packages));
                                    assert(rule[active@[0] as int].0 == names[x as int]);
                                    assert(rule[active@[m as int] as int].0 == names[y as int]);
                                }
                            }
                        }
                        parent.set(b, a);
                        proof {
                            lemma_root_of(middle, depth, x as int);
                            lemma_root_of(middle, depth, y as int);
                            if a == b {
                                assert(parent@ =~= middle);
                            } else {
                                lemma_join(
                                    middle,
                                    depth,
                                    names,
                                    rules,
                                    d,
                                    x as int,
                                    y as int,
                                );
                                depth = deeper(middle, depth, a as int, b as int);
                            }
                            assert(coarser(before, deep, parent@, depth));
                            assert forall|b: int| 0 <= b < c implies joins_active(
                                parent@,
                                depth,
                                (#[trigger] self.clauses@[b])@,
                                d,
                                rules[b],
                            ) by {
                                assert(residual::in_range(
                                    self.clauses@[b]@,
                                    names.len() as int,
                                ));
                                assert(rules[b] == residual::named(names, self.clauses@[b]@));
                                lemma_coarser(
                                    before,
                                    deep,
                                    parent@,
                                    depth,
                                    self.clauses@[b]@,
                                    d,
                                    rules[b],
                                );
                            }
                            assert(roots_join(parent@, depth, clause@, active@, m + 1)) by {
                                assert forall|n: int| 0 <= n < m + 1 implies root_of(
                                    parent@,
                                    depth,
                                    clause@[(#[trigger] active@[n]) as int].0 as int,
                                ) == root_of(
                                    parent@,
                                    depth,
                                    clause@[active@[0] as int].0 as int,
                                ) by {
                                    assert(is_active(d, rule, active@[n] as int));
                                    assert(clause@[active@[n] as int].0 < before.len());
                                    if n < m {
                                        assert(root_of(
                                            before,
                                            deep,
                                            clause@[active@[n] as int].0 as int,
                                        ) == root_of(
                                            before,
                                            deep,
                                            clause@[active@[0] as int].0 as int,
                                        ));
                                    }
                                }
                            }
                        }
                        m += 1;
                    }
                    proof {
                        assert forall|i: int, j: int| #[trigger]
                            is_active(d, rule, i) && #[trigger] is_active(d, rule, j) implies root_of(
                            parent@,
                            depth,
                            clause@[i].0 as int,
                        ) == root_of(parent@, depth, clause@[j].0 as int) by {
                            assert(lists(active@, i) && lists(active@, j));
                            let m = choose|m: int|
                                0 <= m < active@.len() && (#[trigger] active@[m]) == i;
                            let n = choose|n: int|
                                0 <= n < active@.len() && (#[trigger] active@[n]) == j;
                            assert(active@[m] == i && active@[n] == j);
                        }
                        assert(joins_active(parent@, depth, clause@, d, rule));
                    }
                },
            }
            c += 1;
        }
        proof {
            assert forall|x: int, y: int|
                0 <= x < domains@.len() && 0 <= y < domains@.len() implies (#[trigger] root_of(
                parent@,
                depth,
                x,
            ) == #[trigger] root_of(parent@, depth, y) <==> linked(
                rules,
                d,
                names[x],
                names[y],
            )) by {
                if root_of(parent@, depth, x) == root_of(parent@, depth, y) {
                    assert forall|packages: Set<P::V>| #[trigger]
                        is_closed(rules, d, packages) implies (packages.contains(names[x])
                        <==> packages.contains(names[y])) by {
                        assert(roots_agree(parent@, depth, names, packages));
                    }
                }
                if linked(rules, d, names[x], names[y]) {
                    let class = Set::new(
                        |k: P::V|
                            exists|z: int|
                                0 <= z < names.len() && #[trigger] names[z] == k && root_of(
                                    parent@,
                                    depth,
                                    z,
                                ) == root_of(parent@, depth, x),
                    );
                    assert forall|z: int| 0 <= z < names.len() implies (class.contains(
                        #[trigger] names[z],
                    ) <==> root_of(parent@, depth, z) == root_of(parent@, depth, x)) by {
                        if class.contains(names[z]) {
                            let w = choose|w: int|
                                0 <= w < names.len() && #[trigger] names[w] == names[z] && root_of(
                                    parent@,
                                    depth,
                                    w,
                                ) == root_of(parent@, depth, x);
                            assert(w == z);
                        }
                    }
                    assert(is_closed(rules, d, class)) by {
                        assert forall|b: int| 0 <= b < rules.len() implies keeps_together(
                            d,
                            #[trigger] rules[b],
                            class,
                        ) by {
                            let clause = self.clauses@[b]@;
                            assert(joins_active(parent@, depth, self.clauses@[b]@, d, rules[b]));
                            assert(residual::in_range(self.clauses@[b]@, names.len() as int));
                            assert forall|i: int, j: int| #[trigger]
                                is_active(d, rules[b], i) && #[trigger] is_active(
                                    d,
                                    rules[b],
                                    j,
                                ) implies (class.contains(rules[b][i].0) <==> class.contains(
                                rules[b][j].0,
                            )) by {
                                assert(clause[i].0 < names.len() && clause[j].0 < names.len());
                                assert(rules[b][i].0 == names[clause[i].0 as int]);
                                assert(rules[b][j].0 == names[clause[j].0 as int]);
                            }
                        }
                    }
                    assert(class.contains(names[x]));
                    assert(class.contains(names[y]));
                }
            }
        }
        (parent, Ghost(depth))
    }
}

proof fn lemma_filter_push<A>(list: Seq<A>, x: A, keep: spec_fn(A) -> bool)
    ensures
        list.push(x).filter(keep) == if keep(x) {
            list.filter(keep).push(x)
        } else {
            list.filter(keep)
        },
{
    reveal(Seq::filter);
    assert(list.push(x).drop_last() =~= list);
}

pub proof fn lemma_filter_contains<A>(list: Seq<A>, keep: spec_fn(A) -> bool, x: A)
    ensures
        list.filter(keep).contains(x) <==> list.contains(x) && keep(x),
    decreases list.len(),
{
    reveal(Seq::filter);
    if list.len() > 0 {
        let rest = list.drop_last();
        lemma_filter_contains(rest, keep, x);
        assert(list =~= rest.push(list.last()));
        lemma_filter_push(rest, list.last(), keep);
        lemma_contains_push(rest, list.last(), x);
        lemma_contains_push(rest.filter(keep), list.last(), x);
    }
}

proof fn lemma_contains_push<A>(list: Seq<A>, y: A, x: A)
    ensures
        list.push(y).contains(x) <==> list.contains(x) || x == y,
{
    if list.contains(x) {
        let i = choose|i: int| 0 <= i < list.len() && list[i] == x;
        assert(list.push(y)[i] == x);
    }
    assert(list.push(y)[list.len() as int] == y);
    if list.push(y).contains(x) && x != y {
        let i = choose|i: int| 0 <= i < list.push(y).len() && list.push(y)[i] == x;
        assert(list[i] == x);
    }
}

/// One more member for one of the groups.
proof fn lemma_grouping_joins<K, V>(
    rules: Seq<Clause<K, V>>,
    d: Choices<K, V>,
    members: Seq<K>,
    groups: Seq<Seq<K>>,
    k: K,
    g: int,
)
    requires
        is_grouping(rules, d, members, groups),
        0 <= g < groups.len(),
        linked(rules, d, groups[g][0], k),
        forall|h: int|
            0 <= h < groups.len() && h != g ==> !linked(rules, d, (#[trigger] groups[h])[0], k),
    ensures
        is_grouping(rules, d, members.push(k), groups.update(g, groups[g].push(k))),
{
    let more = members.push(k);
    let after = groups.update(g, groups[g].push(k));
    assert forall|x: K| #[trigger] more.contains(x) implies exists|h: int|
        0 <= h < after.len() && (#[trigger] after[h]).contains(x) by {
        lemma_contains_push(members, k, x);
        if x == k {
            lemma_contains_push(groups[g], k, x);
            assert(after[g].contains(x));
        } else {
            let h = choose|h: int| 0 <= h < groups.len() && (#[trigger] groups[h]).contains(x);
            lemma_contains_push(groups[h], k, x);
            assert(after[h].contains(x));
        }
    }
    assert forall|h: int| 0 <= h < after.len() implies (#[trigger] after[h]).len() > 0 && after[h]
        == linked_to(rules, d, more, after[h][0]) by {
        let first = groups[h][0];
        assert(groups[h].len() > 0);
        assert(after[h][0] == first);
        lemma_filter_push(members, k, |x: K| linked(rules, d, first, x));
    }
    assert forall|a: int, b: int| 0 <= a < b < after.len() implies comes_before(
        more,
        #[trigger] after[a],
        #[trigger] after[b],
    ) by {
        assert(comes_before(members, groups[a], groups[b]));
        let i = choose|i: int|
            0 <= i < members.len() && groups[a].contains(#[trigger] members[i]) && forall|j: int|
                0 <= j <= i ==> !groups[b].contains(#[trigger] members[j]);
        lemma_contains_push(groups[a], k, members[i]);
        assert(more[i] == members[i]);
        assert(after[a].contains(more[i]));
        assert forall|j: int| 0 <= j <= i implies !after[b].contains(#[trigger] more[j]) by {
            assert(more[j] == members[j]);
            lemma_contains_push(groups[b], k, members[j]);
            if b == g && members[j] == k {
                lemma_filter_contains(
                    members,
                    |x: K| linked(rules, d, groups[b][0], x),
                    k,
                );
                assert(members.contains(k));
                assert(groups[b].contains(k));
            }
        }
    }
}

/// A group of its own for one more member.
proof fn lemma_grouping_opens<K, V>(
    rules: Seq<Clause<K, V>>,
    d: Choices<K, V>,
    members: Seq<K>,
    groups: Seq<Seq<K>>,
    k: K,
)
    requires
        is_grouping(rules, d, members, groups),
        forall|h: int|
            0 <= h < groups.len() ==> !linked(rules, d, (#[trigger] groups[h])[0], k),
    ensures
        is_grouping(rules, d, members.push(k), groups.push(seq![k])),
{
    let more = members.push(k);
    let after = groups.push(seq![k]);
    let last = groups.len() as int;
    assert(linked(rules, d, k, k));
    assert forall|x: K| members.contains(x) implies !#[trigger] linked(rules, d, k, x) by {
        let h = choose|h: int| 0 <= h < groups.len() && (#[trigger] groups[h]).contains(x);
        let first = groups[h][0];
        lemma_filter_contains(members, |y: K| linked(rules, d, first, y), x);
        assert(linked(rules, d, first, x));
        if linked(rules, d, k, x) {
            assert(linked(rules, d, first, k));
        }
    }
    assert forall|x: K| #[trigger] more.contains(x) implies exists|h: int|
        0 <= h < after.len() && (#[trigger] after[h]).contains(x) by {
        lemma_contains_push(members, k, x);
        if x == k {
            assert(after[last][0] == k);
            assert(after[last].contains(x));
        } else {
            let h = choose|h: int| 0 <= h < groups.len() && (#[trigger] groups[h]).contains(x);
            assert(after[h].contains(x));
        }
    }
    assert forall|h: int| 0 <= h < after.len() implies (#[trigger] after[h]).len() > 0 && after[h]
        == linked_to(rules, d, more, after[h][0]) by {
        let first = after[h][0];
        let keep = |x: K| linked(rules, d, first, x);
        lemma_filter_push(members, k, keep);
        if h < last {
            assert(after[h] == groups[h]);
            assert(groups[h].len() > 0);
        } else {
            assert(members.filter(keep).len() == 0) by {
                if members.filter(keep).len() > 0 {
                    let x = members.filter(keep)[0];
                    lemma_filter_contains(members, keep, x);
                    assert(members.filter(keep).contains(x));
                }
            }
            assert(members.filter(keep).push(k) =~= seq![k]);
        }
    }
    assert forall|a: int, b: int| 0 <= a < b < after.len() implies comes_before(
        more,
        #[trigger] after[a],
        #[trigger] after[b],
    ) by {
        assert(after[a] == groups[a]);
        assert(groups[a].len() > 0);
        if b < last {
            assert(comes_before(members, groups[a], groups[b]));
            let i = choose|i: int|
                0 <= i < members.len() && groups[a].contains(#[trigger] members[i])
                    && forall|j: int| 0 <= j <= i ==> !groups[b].contains(#[trigger] members[j]);
            assert(more[i] == members[i]);
            assert(after[a].contains(more[i]));
            assert forall|j: int| 0 <= j <= i implies !after[b].contains(#[trigger] more[j]) by {
                assert(more[j] == members[j]);
            }
        } else {
            let first = groups[a][0];
            assert(groups[a].contains(first));
            lemma_filter_contains(members, |x: K| linked(rules, d, first, x), first);
            let i = choose|i: int| 0 <= i < members.len() && members[i] == first;
            assert(more[i] == members[i]);
            assert(after[a].contains(more[i]));
            assert forall|j: int| 0 <= j <= i implies !after[b].contains(#[trigger] more[j]) by {
                assert(more[j] == members[j]);
                assert(members.contains(members[j]));
                assert(!linked(rules, d, k, members[j]));
                assert(members[j] != k);
            }
        }
    }
}

/// What identifies the packages of the groups.
pub open spec fn group_keys<P: Package>(groups: Seq<Vec<P>>) -> Seq<Seq<P::V>> {
    Seq::new(groups.len(), |g: int| package::keys(groups[g]@))
}

/// The projected packages, by groups that can be decided independently of each other, and those
/// for which no choice is left.
pub struct Partition<P> {
    pub variable: Vec<Vec<P>>,
    pub fixed: Vec<P>,
}

impl<P: Package> Partition<P> {
    /// The groups; the packages for which no choice is left are the last one.
    pub open spec fn components(self) -> Seq<Seq<P::V>> {
        if self.fixed@.len() == 0 {
            group_keys(self.variable@)
        } else {
            group_keys(self.variable@).push(package::keys(self.fixed@))
        }
    }

    /// The groups; the packages for which no choice is left are the last one.
    pub fn into_components(self) -> (r: Vec<Vec<P>>)
        ensures
            group_keys(r@) == self.components(),
    {
        let mut groups = self.variable;
        if self.fixed.len() > 0 {
            groups.push(self.fixed);
        }
        assert(group_keys(groups@) =~= self.components());
        groups
    }
}

/// The packages in the same order.
fn listed<P: Package>(packages: &Vec<P>) -> (r: Vec<P>)
    ensures
        package::keys(r@) == package::keys(packages@),
{
    let mut r: Vec<P> = Vec::new();
    let mut i: usize = 0;
    while i < packages.len()
        invariant
            i <= packages@.len(),
            r@.len() == i,
            forall|j: int| 0 <= j < i ==> (#[trigger] r@[j])@ == packages@[j]@,
        decreases packages@.len() - i,
    {
        r.push(packages[i].duplicate());
        i += 1;
    }
    assert(package::keys(r@) =~= package::keys(packages@));
    r
}

impl<P: Package, VS: VersionSet> ConstraintModel<P, VS> {
    /// What the requirements leave for each package.
    pub open spec fn start(
        self,
        root: P::V,
        version: VS::V,
        required: Clause<P::V, VS::V>,
    ) -> Choices<P::V, VS::V> {
        restrict_all(choices(self.domains()), seq![(root, term::only(version))] + required)
    }

    /// The projected packages, by groups that can be decided independently of each other.
    pub fn partition<DP: DependencyProvider<P = P, VS = VS>>(
        &self,
        provider: &DP,
        root: &P,
        version: &VS::V,
        projected: &Vec<P>,
        required: &Vec<(P, Term<VS>)>,
    ) -> (r: Result<Partition<P>, PubGrubError<DP>>)
        requires
            self.wf(),
            self.packages().contains(root@),
            forall|i: int|
                0 <= i < projected@.len() ==> self.packages().contains((#[trigger] projected@[i])@),
            forall|i: int|
                0 <= i < required@.len() ==> self.packages().contains((#[trigger] required@[i]).0@),
        ensures
            match r {
                Ok(partition) => is_partition(
                    self.rules(),
                    self.start(root@, *version, term::parts(required@)),
                    package::keys(projected@),
                    group_keys(partition.variable@),
                    package::keys(partition.fixed@),
                ),
                Err(error) => error.raised_by(*provider) && provider.may_fail(),
            },
            error::heeds_cancellation(*provider, r),
    {
        let ghost rules = self.rules();
        let ghost names = self.packages();
        let ghost start = self.start(root@, *version, term::parts(required@));
        let ghost wanted = package::keys(projected@);
        let given = self.required_domains(root, version, required);
        // On contradiction leave explanation construction to the solver, which retains provider
        // reasons and derivation events.
        let domains = match self.propagate(provider, given) {
            Ok(Some(domains)) => domains,
            Ok(None) => {
                let mut variable: Vec<Vec<P>> = Vec::new();
                variable.push(listed(projected));
                let fixed: Vec<P> = Vec::new();
                proof {
                    let d = choose|d: Choices<P::V, VS::V>| #[trigger]
                        propagates(rules, start, d) && is_refuted(rules, d);
                    assert(group_keys(variable@) =~= seq![wanted]);
                    assert(package::keys(fixed@) =~= Seq::empty());
                    assert(propagates(rules, start, d));
                }
                return Ok(Partition { variable, fixed });
            },
            Err(error) => return Err(error),
        };
        let ghost d = choices(domains@);
        let (mut parent, Ghost(depth)) = self.links(&domains);
        let ghost first = parent@;
        let mut groups: Vec<Vec<P>> = Vec::new();
        let mut owners: Vec<usize> = Vec::new();
        let mut fixed: Vec<P> = Vec::new();
        let mut i: usize = 0;
        proof {
            reveal(Seq::filter);
            assert(wanted.take(0) =~= Seq::empty());
            assert(package::keys(fixed@) =~= Seq::empty());
            assert(is_grouping(rules, d, undecided(d, wanted.take(0)), group_keys(groups@)));
        }
        while i < projected.len()
            invariant
                self.wf(),
                rules == self.rules(),
                names == self.packages(),
                names.no_duplicates(),
                domains@.len() == names.len(),
                residual::names(domains@) == names,
                d == choices(domains@),
                wanted == package::keys(projected@),
                forall|i: int|
                    0 <= i < projected@.len() ==> names.contains((#[trigger] projected@[i])@),
                i <= projected@.len(),
                first.len() == names.len(),
                parent@.len() == names.len(),
                is_forest(parent@, depth),
                forall|x: int|
                    0 <= x < names.len() ==> #[trigger] root_of(parent@, depth, x) == root_of(
                        first,
                        depth,
                        x,
                    ),
                forall|x: int, y: int|
                    0 <= x < names.len() && 0 <= y < names.len() ==> (#[trigger] root_of(
                        first,
                        depth,
                        x,
                    ) == #[trigger] root_of(first, depth, y) <==> linked(
                        rules,
                        d,
                        names[x],
                        names[y],
                    )),
                package::keys(fixed@) == decided(d, wanted.take(i as int)),
                is_grouping(rules, d, undecided(d, wanted.take(i as int)), group_keys(groups@)),
                owners@.len() == groups@.len(),
                forall|g: int|
                    0 <= g < owners@.len() ==> owned(
                        first,
                        depth,
                        names,
                        group_keys(groups@)[g],
                        #[trigger] owners@[g] as int,
                    ),
            decreases projected@.len() - i,
        {
            let package = &projected[i];
            assert(names.contains(projected@[i as int]@));
            let id = self.place(package);
            let ghost k = package@;
            let ghost earlier = wanted.take(i as int);
            proof {
                assert(wanted.take(i + 1) =~= earlier.push(k));
                lemma_filter_push(earlier, k, |k: P::V| d[k].len() > 1);
                lemma_filter_push(earlier, k, |k: P::V| d[k].len() <= 1);
                lemma_choices(domains@, id as int);
                assert(names[id as int] == domains@[id as int].package@);
            }
            if domains[id].values.len() <= 1 {
                let ghost before = fixed@;
                fixed.push(package.duplicate());
                proof {
                    assert(package::keys(fixed@) =~= package::keys(before).push(k));
                }
            } else {
                let ghost before = groups@;
                let ghost old_keys = group_keys(before);
                let ghost members = undecided(d, earlier);
                let owner = representative(&mut parent, id, Ghost(depth));
                let mut place: Option<usize> = None;
                let mut g: usize = 0;
                while g < owners.len() && place.is_none()
                    invariant
                        g <= owners@.len(),
                        match place {
                            Some(p) => p < owners@.len() && owners@[p as int] == owner,
                            None => forall|h: int| 0 <= h < g ==> (#[trigger] owners@[h]) != owner,
                        },
                    decreases owners@.len() - g,
                {
                    if owners[g] == owner {
                        place = Some(g);
                    }
                    g += 1;
                }
                proof {
                    assert forall|h: int| 0 <= h < owners@.len() implies (linked(
                        rules,
                        d,
                        (#[trigger] old_keys[h])[0],
                        k,
                    ) <==> owners@[h] == owner) by {
                        assert(owned(first, depth, names, old_keys[h], owners@[h] as int));
                        let z = choose|z: int|
                            0 <= z < names.len() && names[z] == old_keys[h][0] && #[trigger] root_of(
                                first,
                                depth,
                                z,
                            ) == owners@[h];
                        assert(root_of(first, depth, id as int) == owner);
                    }
                }
                match place {
                    Some(p) => {
                        groups[p].push(package.duplicate());
                        proof {
                            let p = p as int;
                            assert(groups@[p]@.drop_last() =~= before[p]@);
                            assert(group_keys(groups@)[p] =~= old_keys[p].push(k));
                            assert(group_keys(groups@) =~= old_keys.update(p, old_keys[p].push(k)));
                            assert(old_keys[p].len() > 0);
                            assert forall|h: int|
                                0 <= h < old_keys.len() && h != p implies !linked(
                                rules,
                                d,
                                (#[trigger] old_keys[h])[0],
                                k,
                            ) by {
                                if linked(rules, d, old_keys[h][0], k) {
                                    lemma_one_group(rules, d, members, old_keys, k, p, h);
                                }
                            }
                            assert(linked(rules, d, old_keys[p][0], k));
                            lemma_grouping_joins(rules, d, members, old_keys, k, p);
                            assert forall|g: int| 0 <= g < owners@.len() implies owned(
                                first,
                                depth,
                                names,
                                group_keys(groups@)[g],
                                #[trigger] owners@[g] as int,
                            ) by {
                                assert(owned(first, depth, names, old_keys[g], owners@[g] as int));
                                assert(old_keys[g].len() > 0);
                                assert(group_keys(groups@)[g][0] == old_keys[g][0]);
                            }
                        }
                    },
                    None => {
                        let ghost earlier_owners = owners@;
                        let mut group: Vec<P> = Vec::new();
                        group.push(package.duplicate());
                        groups.push(group);
                        owners.push(owner);
                        proof {
                            assert(package::keys(group@) =~= seq![k]);
                            assert(group_keys(groups@) =~= old_keys.push(seq![k]));
                            assert forall|h: int| 0 <= h < old_keys.len() implies !linked(
                                rules,
                                d,
                                (#[trigger] old_keys[h])[0],
                                k,
                            ) by {
                                assert(earlier_owners[h] != owner);
                            }
                            lemma_grouping_opens(rules, d, members, old_keys, k);
                            assert forall|g: int| 0 <= g < owners@.len() implies owned(
                                first,
                                depth,
                                names,
                                group_keys(groups@)[g],
                                #[trigger] owners@[g] as int,
                            ) by {
                                if g < old_keys.len() {
                                    assert(owned(
                                        first,
                                        depth,
                                        names,
                                        old_keys[g],
                                        earlier_owners[g] as int,
                                    ));
                                    assert(group_keys(groups@)[g] == old_keys[g]);
                                } else {
                                    assert(group_keys(groups@)[g][0] == k);
                                    assert(root_of(first, depth, id as int) == owner);
                                }
                            }
                        }
                    },
                }
            }
            i += 1;
        }
        proof {
            assert(wanted.take(i as int) =~= wanted);
            assert(propagates(rules, start, d));
        }
        Ok(Partition { variable: groups, fixed })
    }
}

/// The place is the representative of the group's first member.
spec fn owned<K>(
    parent: Seq<usize>,
    depth: Seq<nat>,
    names: Seq<K>,
    group: Seq<K>,
    owner: int,
) -> bool {
    exists|z: int|
        0 <= z < names.len() && names[z] == group[0] && #[trigger] root_of(parent, depth, z)
            == owner
}

/// A package is linked to one group only.
pub proof fn lemma_one_group<K, V>(
    rules: Seq<Clause<K, V>>,
    d: Choices<K, V>,
    members: Seq<K>,
    groups: Seq<Seq<K>>,
    k: K,
    g: int,
    h: int,
)
    requires
        is_grouping(rules, d, members, groups),
        0 <= g < groups.len(),
        0 <= h < groups.len(),
        linked(rules, d, groups[g][0], k),
        linked(rules, d, groups[h][0], k),
    ensures
        g == h,
{
    if g != h {
        let a = if g < h { g } else { h };
        let b = if g < h { h } else { g };
        assert(comes_before(members, groups[a], groups[b]));
        let i = choose|i: int|
            0 <= i < members.len() && groups[a].contains(#[trigger] members[i]) && forall|j: int|
                0 <= j <= i ==> !groups[b].contains(#[trigger] members[j]);
        let x = members[i];
        lemma_filter_contains(members, |y: K| linked(rules, d, groups[a][0], y), x);
        lemma_filter_contains(members, |y: K| linked(rules, d, groups[b][0], y), x);
        assert(groups[a] == linked_to(rules, d, members, groups[a][0]));
        assert(groups[b] == linked_to(rules, d, members, groups[b][0]));
        assert(linked(rules, d, groups[a][0], x));
        assert(linked(rules, d, groups[b][0], x));
    }
}

/// The groups that the partition of the provider's model has.
pub open spec fn are_components_in<DP: DependencyProvider>(
    dp: DP,
    root: Key<DP>,
    version: VersionOf<DP>,
    projected: Seq<Key<DP>>,
    required: Clause<Key<DP>, VersionOf<DP>>,
    model: ConstraintModel<DP::P, DP::VS>,
    groups: Seq<Seq<Key<DP>>>,
) -> bool {
    &&& residual::is_exact(dp, model)
    &&& model.packages().contains(root)
    &&& forall|k: Key<DP>| #[trigger] projected.contains(k) ==> model.packages().contains(k)
    &&& forall|i: int|
        0 <= i < required.len() ==> model.packages().contains((#[trigger] required[i]).0)
    &&& exists|variable: Seq<Seq<Key<DP>>>, fixed: Seq<Key<DP>>| #[trigger]
        is_partition(
            model.rules(),
            model.start(root, version, required),
            projected,
            variable,
            fixed,
        ) && groups == if fixed.len() == 0 {
            variable
        } else {
            variable.push(fixed)
        }
}

/// The groups that the partition of a model of the provider has.
pub open spec fn are_components<DP: DependencyProvider>(
    dp: DP,
    root: Key<DP>,
    version: VersionOf<DP>,
    projected: Seq<Key<DP>>,
    required: Clause<Key<DP>, VersionOf<DP>>,
    groups: Seq<Seq<Key<DP>>>,
) -> bool {
    exists|model: ConstraintModel<DP::P, DP::VS>| #[trigger]
        are_components_in(dp, root, version, projected, required, model, groups)
}

/// The projected packages, by groups that can be decided independently of each other.
pub fn components<DP: DependencyProvider>(
    provider: &DP,
    root: &DP::P,
    version: &VersionOf<DP>,
    projected: &Vec<DP::P>,
    required: &Vec<(DP::P, Term<DP::VS>)>,
) -> (r: Result<Vec<Vec<DP::P>>, PubGrubError<DP>>)
    ensures
        match r {
            Ok(groups) => are_components(
                *provider,
                root@,
                *version,
                package::keys(projected@),
                term::parts(required@),
                group_keys(groups@),
            ),
            Err(error) => error.raised_by(*provider) && provider.may_fail(),
        },
        error::heeds_cancellation(*provider, r),
{
    let model = match residual::load(provider, root, projected, required) {
        Ok(model) => model,
        Err(error) => return Err(error),
    };
    let partition = match model.partition(provider, root, version, projected, required) {
        Ok(partition) => partition,
        Err(error) => return Err(error),
    };
    let ghost variable = group_keys(partition.variable@);
    let ghost fixed = package::keys(partition.fixed@);
    let groups = partition.into_components();
    proof {
        let wanted = package::keys(projected@);
        assert forall|k: Key<DP>| #[trigger] wanted.contains(k) implies model.packages().contains(
            k,
        ) by {
            let i = choose|i: int| 0 <= i < wanted.len() && wanted[i] == k;
            assert(model.packages().contains(projected@[i]@));
        }
        assert forall|i: int|
            0 <= i < term::parts(required@).len() implies model.packages().contains(
            (#[trigger] term::parts(required@)[i]).0,
        ) by {
            assert(model.packages().contains(required@[i].0@));
        }
        assert(is_partition(
            model.rules(),
            model.start(root@, *version, term::parts(required@)),
            wanted,
            variable,
            fixed,
        ));
        assert(are_components_in(
            *provider,
            root@,
            *version,
            wanted,
            term::parts(required@),
            model,
            group_keys(groups@),
        ));
    }
    Ok(groups)
}

} // verus!
