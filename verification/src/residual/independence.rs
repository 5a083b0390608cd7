//! What the model says about the solutions of the problem.

use vstd::prelude::*;

use super::partition;
use super::partition::Choices;
use super::ConstraintModel;
use crate::factored;
use crate::front;
use crate::preference::PackagePreference;
use crate::problem;
use crate::problem::{Key, Selection, VersionOf};
use crate::provider::DependencyProvider;
use crate::residual;
use crate::search;
use crate::search::Clause;
use crate::term;

verus! {

/// Requirements leave the states of which they hold.
proof fn lemma_restrict_all<K, V>(d: Choices<K, V>, parts: Clause<K, V>, s: Map<K, V>)
    requires
        forall|i: int| 0 <= i < parts.len() ==> d.dom().contains((#[trigger] parts[i]).0),
    ensures
        partition::restrict_all(d, parts).dom() == d.dom(),
        partition::chosen_from(partition::restrict_all(d, parts), s) <==> partition::chosen_from(
            d,
            s,
        ) && search::violates(parts, s),
    decreases parts.len(),
{
    if parts.len() > 0 {
        let before = parts.drop_last();
        let part = parts.last();
        assert forall|i: int| 0 <= i < before.len() implies d.dom().contains(
            (#[trigger] before[i]).0,
        ) by {
            assert(parts[i] == before[i]);
        }
        lemma_restrict_all(d, before, s);
        let e = partition::restrict_all(d, before);
        let after = partition::restrict_all(d, parts);
        assert(parts[parts.len() - 1] == part);
        assert(d.dom().contains(part.0));
        assert(after.dom() =~= d.dom());
        let x = s.get(part.0);
        partition::lemma_kept(e[part.0], part.1, x);
        search::lemma_violates_push(before, part, s);
        assert(before.push(part) =~= parts);
        if partition::chosen_from(after, s) {
            assert(after[part.0].contains(x));
            assert forall|k: K| #[trigger] e.dom().contains(k) implies e[k].contains(s.get(k)) by {
                assert(after.dom().contains(k));
                assert(after[k].contains(s.get(k)));
            }
        }
    }
}

/// The part of the selection that the model is about.
pub open spec fn within_model<DP: DependencyProvider>(
    model: ConstraintModel<DP::P, DP::VS>,
    s: Selection<DP>,
) -> Selection<DP> {
    s.restrict(model.packages().to_set())
}

/// The provider's model has the solutions of the problem: each of them is a choice that violates
/// no clause, and what such a choice selects among the model's packages is a solution.
pub proof fn exact_model_has_the_same_solutions<DP: DependencyProvider>(
    dp: DP,
    root: Key<DP>,
    version: VersionOf<DP>,
    required: Clause<Key<DP>, VersionOf<DP>>,
    model: ConstraintModel<DP::P, DP::VS>,
    s: Selection<DP>,
)
    requires
        residual::is_exact(dp, model),
        model.packages().contains(root),
        forall|i: int|
            0 <= i < required.len() ==> model.packages().contains((#[trigger] required[i]).0),
    ensures
        problem::is_solution(dp, root, version, s) && search::violates(required, s)
            ==> partition::is_choice(model.rules(), model.start(root, version, required), s),
        partition::is_choice(model.rules(), model.start(root, version, required), s) ==> {
            &&& problem::is_solution(dp, root, version, within_model::<DP>(model, s))
            &&& search::violates(required, within_model::<DP>(model, s))
        },
{
    let all = partition::choices(model.domains());
    let packages = model.packages();
    let parts = seq![(root, term::only(version))] + required;
    let rules = model.rules();
    let start = model.start(root, version, required);
    model.lemma_wf();
    assert(all.dom().contains(root));
    assert forall|i: int| 0 <= i < parts.len() implies all.dom().contains(
        (#[trigger] parts[i]).0,
    ) by {
        if i > 0 {
            assert(parts[i] == required[i - 1]);
            assert(packages.contains(required[i - 1].0));
        }
    }
    lemma_restrict_all(all, parts, s);
    search::lemma_violates_both(seq![(root, term::only(version))], required, s);
    if problem::is_solution(dp, root, version, s) && search::violates(required, s) {
        assert(search::violates(seq![(root, term::only(version))], s));
        assert forall|k: Key<DP>| #[trigger] all.dom().contains(k) implies all[k].contains(
            s.get(k),
        ) by {
            let i = packages.index_of(k);
            assert(0 <= i < packages.len() && packages[i] == k);
            if s.dom().contains(k) {
                assert(problem::fits(dp, s, k));
            }
            assert(residual::offered_state(dp, packages[i], s.get(k)));
            assert(model.domains()[i].values@.contains(s.get(k)));
        }
        assert forall|c: int| 0 <= c < rules.len() implies !search::violates(
            #[trigger] rules[c],
            s,
        ) by {
            if search::violates(rules[c], s) {
                assert(residual::faithful(dp, packages, rules[c]));
                let k = residual::lemma_faithful(dp, packages, rules[c]);
                assert(s.dom().contains(k) && !problem::fits(dp, s, k));
            }
        }
    }
    if partition::is_choice(rules, start, s) {
        let t = within_model::<DP>(model, s);
        assert forall|k: Key<DP>| packages.contains(k) implies #[trigger] t.get(k) == s.get(k) by {
            assert(packages.to_set().contains(k));
        }
        assert(search::violates(seq![(root, term::only(version))], s));
        let first = seq![(root, term::only(version))];
        assert(first[0].1.contains(s.get(first[0].0)));
        assert(t.get(root) == Some(version));
        assert(search::violates(required, t)) by {
            assert forall|i: int| 0 <= i < required.len() implies (
            #[trigger] required[i]).1.contains(t.get(required[i].0)) by {
                assert(packages.contains(required[i].0));
                assert(required[i].1.contains(s.get(required[i].0)));
            }
        }
        assert forall|c: int| 0 <= c < rules.len() implies !search::violates(
            #[trigger] rules[c],
            t,
        ) by {
            let rule = rules[c];
            if search::violates(rule, t) {
                assert forall|i: int| 0 <= i < rule.len() implies (#[trigger] rule[i]).1.contains(
                    s.get(rule[i].0),
                ) by {
                    assert(packages.contains(rules[c][i].0));
                    assert(t.get(rule[i].0) == s.get(rule[i].0));
                }
                assert(search::violates(rule, s));
            }
        }
        assert forall|k: Key<DP>| #[trigger] t.dom().contains(k) implies problem::fits(
            dp,
            t,
            k,
        ) by {
            assert(packages.contains(k));
            let i = packages.index_of(k);
            assert(0 <= i < packages.len() && packages[i] == k);
            assert(all.dom().contains(k));
            assert(all[k].contains(s.get(k)));
            assert(model.domains()[i].values@.contains(s.get(k)));
            assert(residual::offered_state(dp, packages[i], s.get(k)));
            assert(s.get(k) == Some(t[k]));
            assert(dp.offers(packages[i], t[k]));
            problem::lemma_explained_fits(dp, rules, k, t);
        }
    }
}

/// The packages that are linked to one of the chosen groups.
spec fn reach<K, V>(
    rules: Seq<Clause<K, V>>,
    d: Choices<K, V>,
    groups: Seq<Seq<K>>,
    chosen: Set<int>,
) -> Set<K> {
    Set::new(
        |k: K|
            exists|g: int|
                0 <= g < groups.len() && chosen.contains(g) && partition::linked(
                    rules,
                    d,
                    (#[trigger] groups[g])[0],
                    k,
                ),
    )
}

/// What is linked to a group stays together.
proof fn lemma_reach_closed<K, V>(
    rules: Seq<Clause<K, V>>,
    d: Choices<K, V>,
    groups: Seq<Seq<K>>,
    chosen: Set<int>,
)
    ensures
        partition::is_closed(rules, d, reach(rules, d, groups, chosen)),
{
    let all = reach(rules, d, groups, chosen);
    assert forall|c: int| 0 <= c < rules.len() implies partition::keeps_together(
        d,
        #[trigger] rules[c],
        all,
    ) by {
        let rule = rules[c];
        assert forall|i: int, j: int| #[trigger]
            partition::is_active(d, rule, i) && #[trigger] partition::is_active(
                d,
                rule,
                j,
            ) implies (all.contains(rule[i].0) <==> all.contains(rule[j].0)) by {
            let a = rule[i].0;
            let b = rule[j].0;
            assert forall|packages: Set<K>| #[trigger]
                partition::is_closed(rules, d, packages) implies (packages.contains(a)
                <==> packages.contains(b)) by {
                assert(partition::keeps_together(d, rules[c], packages));
            }
            assert(partition::linked(rules, d, a, b));
            if all.contains(a) {
                let g = choose|g: int|
                    0 <= g < groups.len() && chosen.contains(g) && partition::linked(
                        rules,
                        d,
                        (#[trigger] groups[g])[0],
                        a,
                    );
                assert(partition::linked(rules, d, groups[g][0], b));
            }
            if all.contains(b) {
                let g = choose|g: int|
                    0 <= g < groups.len() && chosen.contains(g) && partition::linked(
                        rules,
                        d,
                        (#[trigger] groups[g])[0],
                        b,
                    );
                assert(partition::linked(rules, d, groups[g][0], a));
            }
        }
    }
}

/// The members of a group are projected packages that are linked to its first one.
proof fn lemma_group_member<K, V>(
    rules: Seq<Clause<K, V>>,
    d: Choices<K, V>,
    projected: Seq<K>,
    groups: Seq<Seq<K>>,
    g: int,
    k: K,
)
    requires
        partition::is_grouping(rules, d, partition::undecided(d, projected), groups),
        0 <= g < groups.len(),
        groups[g].contains(k),
    ensures
        projected.contains(k),
        partition::linked(rules, d, groups[g][0], k),
{
    let members = partition::undecided(d, projected);
    let first = groups[g][0];
    assert(groups[g] == partition::linked_to(rules, d, members, first));
    partition::lemma_filter_contains(members, |x: K| partition::linked(rules, d, first, x), k);
    partition::lemma_filter_contains(projected, |x: K| d[x].len() > 1, k);
}

proof fn lemma_restrict_dom<K, V>(d: Choices<K, V>, parts: Clause<K, V>)
    requires
        forall|i: int| 0 <= i < parts.len() ==> d.dom().contains((#[trigger] parts[i]).0),
    ensures
        partition::restrict_all(d, parts).dom() == d.dom(),
{
    lemma_restrict_all(d, parts, Map::empty());
}

/// Components can be decided independently of each other: for any two solutions that meet the
/// requirements, and any choice of components, there is a solution that agrees with the one on the
/// chosen components and with the other on the rest.
pub proof fn components_are_independent<DP: DependencyProvider>(
    dp: DP,
    root: Key<DP>,
    version: VersionOf<DP>,
    projected: Seq<Key<DP>>,
    required: Clause<Key<DP>, VersionOf<DP>>,
    groups: Seq<Seq<Key<DP>>>,
    chosen: Set<int>,
    s: Selection<DP>,
    t: Selection<DP>,
) -> (u: Selection<DP>)
    requires
        partition::are_components(dp, root, version, projected, required, groups),
        problem::is_solution(dp, root, version, s),
        search::violates(required, s),
        problem::is_solution(dp, root, version, t),
        search::violates(required, t),
    ensures
        problem::is_solution(dp, root, version, u),
        search::violates(required, u),
        forall|g: int, k: Key<DP>|
            0 <= g < groups.len() && #[trigger] groups[g].contains(k) ==> u.get(k)
                == if chosen.contains(g) {
                s.get(k)
            } else {
                t.get(k)
            },
{
    let model = choose|model: ConstraintModel<DP::P, DP::VS>| #[trigger]
        partition::are_components_in(dp, root, version, projected, required, model, groups);
    let rules = model.rules();
    let start = model.start(root, version, required);
    let packages = model.packages();
    let (variable, fixed) = choose|variable: Seq<Seq<Key<DP>>>, fixed: Seq<Key<DP>>| #[trigger]
        partition::is_partition(rules, start, projected, variable, fixed) && groups
            == if fixed.len() == 0 {
            variable
        } else {
            variable.push(fixed)
        };
    exact_model_has_the_same_solutions(dp, root, version, required, model, s);
    exact_model_has_the_same_solutions(dp, root, version, required, model, t);
    model.lemma_wf();
    let all = partition::choices(model.domains());
    let parts = seq![(root, term::only(version))] + required;
    assert forall|i: int| 0 <= i < parts.len() implies all.dom().contains(
        (#[trigger] parts[i]).0,
    ) by {
        if i > 0 {
            assert(parts[i] == required[i - 1]);
            assert(packages.contains(required[i - 1].0));
        }
    }
    lemma_restrict_dom(all, parts);
    assert(start.dom() == all.dom());
    assert(partition::is_about(rules, start)) by {
        assert forall|c: int, i: int|
            0 <= c < rules.len() && 0 <= i < rules[c].len() implies start.dom().contains(
            (#[trigger] rules[c][i]).0,
        ) by {
            assert(packages.contains(rules[c][i].0));
        }
    }
    let d = choose|d: Choices<Key<DP>, VersionOf<DP>>| #[trigger]
        partition::propagates(rules, start, d) && if partition::is_refuted(rules, d) {
            variable == seq![projected] && fixed == Seq::<Key<DP>>::empty()
        } else {
            partition::is_settled(rules, d) && partition::is_split(
                rules,
                d,
                projected,
                variable,
                fixed,
            )
        };
    if partition::is_refuted(rules, d) {
        partition::contradiction_means_no_solution(rules, start, d, s);
    }
    partition::propagation_keeps_solutions(rules, start, d, s);
    partition::propagation_keeps_solutions(rules, start, d, t);
    let side = reach(rules, d, variable, chosen);
    lemma_reach_closed(rules, d, variable, chosen);
    partition::solutions_can_be_mixed(rules, d, side, s, t);
    let w = partition::mixed(side, s, t);
    assert(partition::is_choice(rules, start, w)) by {
        assert forall|k: Key<DP>| #[trigger] start.dom().contains(k) implies start[k].contains(
            w.get(k),
        ) by {
            assert(w.get(k) == if side.contains(k) {
                s.get(k)
            } else {
                t.get(k)
            });
        }
    }
    exact_model_has_the_same_solutions(dp, root, version, required, model, w);
    let u = within_model::<DP>(model, w);
    assert forall|g: int, k: Key<DP>|
        0 <= g < groups.len() && #[trigger] groups[g].contains(k) implies u.get(k)
        == if chosen.contains(g) {
        s.get(k)
    } else {
        t.get(k)
    } by {
        if g < variable.len() {
            assert(groups[g] == variable[g]);
            lemma_group_member(rules, d, projected, variable, g, k);
            assert(side.contains(k) <==> chosen.contains(g)) by {
                if chosen.contains(g) {
                    assert(partition::linked(rules, d, variable[g][0], k));
                }
                if side.contains(k) {
                    let h = choose|h: int|
                        0 <= h < variable.len() && chosen.contains(h) && partition::linked(
                            rules,
                            d,
                            (#[trigger] variable[h])[0],
                            k,
                        );
                    partition::lemma_one_group(
                        rules,
                        d,
                        partition::undecided(d, projected),
                        variable,
                        k,
                        g,
                        h,
                    );
                }
            }
        } else {
            assert(groups[g] == fixed);
            partition::lemma_filter_contains(projected, |x: Key<DP>| d[x].len() <= 1, k);
            assert(packages.contains(k));
            assert(start.dom().contains(k));
            partition::lemma_propagates_dom(rules, start, d);
            partition::fixed_packages_do_not_vary(rules, start, d, s, t, k);
        }
        assert(projected.contains(k));
        assert(packages.contains(k));
        assert(packages.to_set().contains(k));
        assert(u.get(k) == w.get(k));
        assert(w.get(k) == if side.contains(k) {
            s.get(k)
        } else {
            t.get(k)
        });
    }
    u
}

/// The preferences are about packages of one component only.
pub open spec fn lie_in<DP: DependencyProvider>(
    preferences: Seq<PackagePreference<DP::P, DP::VS>>,
    group: Seq<Key<DP>>,
) -> bool {
    forall|j: int| 0 <= j < preferences.len() ==> group.contains((#[trigger] preferences[j]).key())
}

/// The first of the given combinations can be preserved together.
proof fn lemma_rows_together<DP: DependencyProvider>(
    dp: DP,
    root: Key<DP>,
    version: VersionOf<DP>,
    projected: Seq<Key<DP>>,
    groups: Seq<Seq<Key<DP>>>,
    components: Seq<Seq<PackagePreference<DP::P, DP::VS>>>,
    places: Seq<int>,
    rows: Seq<Seq<bool>>,
    n: int,
    any: Selection<DP>,
) -> (s: Selection<DP>)
    requires
        partition::are_components(dp, root, version, projected, Seq::empty(), groups),
        problem::is_solution(dp, root, version, any),
        places.len() == components.len(),
        places.no_duplicates(),
        forall|i: int|
            0 <= i < places.len() ==> 0 <= (#[trigger] places[i]) < groups.len() && lie_in::<DP>(
                components[i],
                groups[places[i]],
            ),
        rows.len() == components.len(),
        forall|i: int|
            0 <= i < rows.len() ==> front::achievable(
                dp,
                root,
                version,
                components[i],
                #[trigger] rows[i],
            ),
        0 <= n <= components.len(),
    ensures
        problem::is_solution(dp, root, version, s),
        forall|i: int|
            0 <= i < n ==> front::profile(#[trigger] components[i], s) == rows[i],
    decreases n,
{
    if n == 0 {
        any
    } else {
        let before = lemma_rows_together(
            dp,
            root,
            version,
            projected,
            groups,
            components,
            places,
            rows,
            n - 1,
            any,
        );
        let m = n - 1;
        assert(front::achievable(dp, root, version, components[m], rows[m]));
        let last = choose|s: Selection<DP>| #[trigger]
            problem::is_solution(dp, root, version, s) && front::profile(components[m], s)
                == rows[m];
        let chosen = Set::<int>::empty().insert(places[m]);
        let u = components_are_independent(
            dp,
            root,
            version,
            projected,
            Seq::empty(),
            groups,
            chosen,
            last,
            before,
        );
        assert forall|i: int| 0 <= i < n implies front::profile(#[trigger] components[i], u)
            == rows[i] by {
            let whole = if i == m {
                last
            } else {
                before
            };
            assert(places[i] == places[m] ==> i == m);
            let preferences = components[i];
            assert(lie_in::<DP>(components[i], groups[places[i]]));
            assert forall|j: int| 0 <= j < preferences.len() implies (
            #[trigger] preferences[j]).kept_in(u) == preferences[j].kept_in(whole) by {
                assert(groups[places[i]].contains(preferences[j].key()));
            }
            assert(front::profile(preferences, u) =~= front::profile(preferences, whole));
        }
        u
    }
}

/// Preferences about packages of different components are not coupled.
pub proof fn components_do_not_couple_preferences<DP: DependencyProvider>(
    dp: DP,
    root: Key<DP>,
    version: VersionOf<DP>,
    projected: Seq<Key<DP>>,
    groups: Seq<Seq<Key<DP>>>,
    components: Seq<Seq<PackagePreference<DP::P, DP::VS>>>,
    places: Seq<int>,
)
    requires
        partition::are_components(dp, root, version, projected, Seq::empty(), groups),
        problem::solvable(dp, root, version),
        places.len() == components.len(),
        places.no_duplicates(),
        forall|i: int|
            0 <= i < places.len() ==> 0 <= (#[trigger] places[i]) < groups.len() && lie_in::<DP>(
                components[i],
                groups[places[i]],
            ),
    ensures
        factored::independent(dp, root, version, components),
{
    let any = choose|s: Selection<DP>| #[trigger] problem::is_solution(dp, root, version, s);
    assert forall|rows: Seq<Seq<bool>>|
        rows.len() == components.len() && (forall|i: int|
            0 <= i < rows.len() ==> front::achievable(
                dp,
                root,
                version,
                components[i],
                #[trigger] rows[i],
            )) implies #[trigger] factored::jointly_achievable(
        dp,
        root,
        version,
        components,
        rows,
    ) by {
        let s = lemma_rows_together(
            dp,
            root,
            version,
            projected,
            groups,
            components,
            places,
            rows,
            components.len() as int,
            any,
        );
        assert(factored::profiles(components, s) =~= rows) by {
            assert forall|i: int| 0 <= i < rows.len() implies factored::profiles(components, s)[i]
                == rows[i] by {
                assert(front::profile(components[i], s) == rows[i]);
            }
        }
    }
}

/// A dependency that every state left for its package meets does not couple anything: no part of its
/// clause is still to be decided.
pub proof fn met_requirement_couples_nothing<K, V>(
    d: Choices<K, V>,
    k: K,
    v: V,
    requirement: (K, Set<V>),
)
    requires
        forall|x: Option<V>| #[trigger]
            d[requirement.0].contains(x) ==> term::selected_in(requirement.1).contains(x),
    ensures
        forall|i: int| !#[trigger]
            partition::is_active(
                d,
                residual::merged(problem::requirement_clause(k, v, requirement)),
                i,
            ),
{
    let clause = problem::requirement_clause(k, v, requirement);
    let rule = residual::merged(clause);
    let q = requirement.0;
    residual::lemma_merged(clause);
    assert(clause[1].0 == q);
    assert(search::mentions(clause, q));
    assert(search::mentions(rule, q));
    let i = choose|i: int| 0 <= i < rule.len() && (#[trigger] rule[i]).0 == q;
    reveal_with_fuel(residual::merged, 3);
    assert(clause.drop_last().drop_last() =~= Seq::empty());
    assert(clause.drop_last().last() == clause[0]);
    assert forall|x: Option<V>| #[trigger] d[rule[i].0].contains(x) implies !rule[i].1.contains(
        x,
    ) by {
        assert(term::selected_in(requirement.1).contains(x));
    }
    assert(partition::is_dead(d, rule[i]));
}

} // verus!
