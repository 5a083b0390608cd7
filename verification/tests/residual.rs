use pubgrub::residual::partition::components;
use pubgrub::residual::{load, ConstraintModel, Domain};
use pubgrub::{OfflineDependencyProvider, Ranges, SelectedDependencies, Term, VersionSet};

// Check the pruning proof independently of front enumeration and its separator heuristic.
// Enumerate all nonempty truth tables over two projected coordinates and a hidden one.
#[test]
fn substitution_regions_never_contain_a_pareto_point() {
    for optional in [false, true] {
        let second = if optional {
            [None, Some(1u32)]
        } else {
            [Some(1), Some(2)]
        };
        let points = [Some(1u32), Some(2)]
            .into_iter()
            .flat_map(|a| {
                second
                    .into_iter()
                    .flat_map(move |b| [None, Some(1)].map(|hidden| [a, b, hidden]))
            })
            .collect::<Vec<_>>();
        let dominates = |a: &[Option<u32>; 3], b: &[Option<u32>; 3]| {
            (0..2).all(|i| a[i].is_some() == b[i].is_some() && a[i] >= b[i])
                && (0..2).any(|i| a[i] > b[i])
        };
        let state = |v: Option<u32>| {
            v.map_or_else(
                || Term::Negative(Ranges::full()),
                |v| Term::Positive(Ranges::singleton(v)),
            )
        };
        for mask in 1usize..(1 << points.len()) {
            let feasible = points
                .iter()
                .enumerate()
                .filter(|(i, _)| mask & (1 << i) != 0)
                .map(|(_, p)| p)
                .collect::<Vec<_>>();
            let mut clauses = points
                .iter()
                .enumerate()
                .filter(|(i, _)| mask & (1 << i) == 0)
                .map(|(_, point)| {
                    point
                        .iter()
                        .enumerate()
                        .map(|(id, v)| (id, state(*v)))
                        .collect()
                })
                .collect::<Vec<Vec<(usize, Term<Ranges<u32>>)>>>();
            clauses.push(vec![(0, Term::Negative(Ranges::full()))]);
            if !optional {
                clauses.push(vec![(1, Term::Negative(Ranges::full()))]);
            }
            let model = ConstraintModel::new(
                (0usize..3)
                    .map(|package| Domain {
                        package,
                        values: Vec::new(),
                    })
                    .collect(),
                clauses,
            );
            let assignment = |point: &[Option<u32>; 3]| {
                SelectedDependencies::<usize, u32>::from_vec(
                    point
                        .iter()
                        .enumerate()
                        .filter_map(|(id, value)| value.map(|v| (id, v)))
                        .collect(),
                )
            };
            for before in &feasible {
                for after in feasible.iter().filter(|after| dominates(after, before)) {
                    let region = model.substitution_region(
                        &assignment(before),
                        &assignment(after),
                        &vec![0, 1],
                        &|v: &u32| Ranges::singleton(*v),
                        &|v: &u32| Ranges::strictly_higher_than(*v),
                        &0,
                    );
                    assert!(
                        region
                            .iter()
                            .all(|(id, term)| pubgrub::residual::matches(term, before[*id].as_ref()))
                    );
                    for point in feasible.iter().filter(|point| {
                        region
                            .iter()
                            .all(|(id, term)| pubgrub::residual::matches(term, point[*id].as_ref()))
                    }) {
                        assert!(
                            feasible.iter().any(|other| dominates(other, point)),
                            "pruned a maximal point: mask={mask}, point={point:?}, region={region:?}"
                        );
                    }
                }
            }
        }
    }
}

type Provider = OfflineDependencyProvider<&'static str, Ranges<u32>>;

fn release(provider: &mut Provider, package: &'static str, version: u32) {
    provider.add_dependencies(package, version, vec![]);
}

fn any(package: &'static str) -> (&'static str, Ranges<u32>) {
    (package, Ranges::full())
}

fn exactly(package: &'static str, version: u32) -> (&'static str, Ranges<u32>) {
    (package, Ranges::singleton(version))
}

/// Two pairs of packages: a and b exclude each other's newest version, c and d go together.
fn two_pairs() -> Provider {
    let mut provider = Provider::new();
    provider.add_dependencies("root", 1, vec![any("a"), any("b"), any("c"), any("d"), any("e")]);
    release(&mut provider, "a", 1);
    provider.add_dependencies("a", 2, vec![exactly("b", 1)]);
    release(&mut provider, "b", 1);
    release(&mut provider, "b", 2);
    provider.add_dependencies("c", 1, vec![exactly("d", 1)]);
    provider.add_dependencies("c", 2, vec![exactly("d", 2)]);
    release(&mut provider, "d", 1);
    release(&mut provider, "d", 2);
    release(&mut provider, "e", 7);
    provider
}

#[test]
fn coupled_packages_share_a_component() {
    let provider = two_pairs();
    let groups = components(
        &provider,
        &"root",
        &1,
        &vec!["d", "a", "e", "b", "c"],
        &Vec::new(),
    )
    .unwrap();
    assert_eq!(groups, vec![vec!["d", "c"], vec!["a", "b"], vec!["e"]]);
}

#[test]
fn a_requirement_may_fix_a_component() {
    let provider = two_pairs();
    let groups = components(
        &provider,
        &"root",
        &1,
        &vec!["a", "b", "c", "d"],
        &vec![("c", Term::Positive(Ranges::singleton(2)))],
    )
    .unwrap();
    assert_eq!(groups, vec![vec!["a", "b"], vec!["c", "d"]]);
    let fixed = load(
        &provider,
        &"root",
        &vec!["a", "b", "c", "d"],
        &vec![("c", Term::Positive(Ranges::singleton(2)))],
    )
    .unwrap()
    .partition(
        &provider,
        &"root",
        &1,
        &vec!["a", "b", "c", "d"],
        &vec![("c", Term::Positive(Ranges::singleton(2)))],
    )
    .unwrap();
    assert_eq!(fixed.variable, vec![vec!["a", "b"]]);
    assert_eq!(fixed.fixed, vec!["c", "d"]);
}

#[test]
fn a_dependency_that_is_always_met_couples_nothing() {
    let mut provider = Provider::new();
    provider.add_dependencies("root", 1, vec![any("a"), any("b"), any("shared")]);
    for package in ["a", "b"] {
        provider.add_dependencies(package, 1, vec![any("shared")]);
        provider.add_dependencies(package, 2, vec![any("shared")]);
    }
    release(&mut provider, "shared", 1);
    release(&mut provider, "shared", 2);
    let groups = components(&provider, &"root", &1, &vec!["a", "b"], &Vec::new()).unwrap();
    assert_eq!(groups, vec![vec!["a"], vec!["b"]]);
}

#[test]
fn a_contradiction_leaves_one_component() {
    let mut provider = Provider::new();
    provider.add_dependencies("root", 1, vec![exactly("a", 1), any("b")]);
    release(&mut provider, "a", 2);
    release(&mut provider, "b", 1);
    release(&mut provider, "b", 2);
    let groups = components(&provider, &"root", &1, &vec!["b", "a"], &Vec::new()).unwrap();
    assert_eq!(groups, vec![vec!["b", "a"]]);
}

#[test]
fn a_package_that_is_not_offered_is_fixed() {
    let mut provider = Provider::new();
    provider.add_dependencies("root", 1, vec![any("a")]);
    release(&mut provider, "a", 1);
    release(&mut provider, "a", 2);
    let groups = components(&provider, &"root", &1, &vec!["ghost", "a"], &Vec::new()).unwrap();
    assert_eq!(groups, vec![vec!["a"], vec!["ghost"]]);
}

#[test]
fn a_region_bounds_what_changes_and_keeps_what_guards() {
    // Raising a from 1 to 2 is feasible only while b stays at 1; c is of no concern.
    let model = ConstraintModel::new(
        vec!["a", "b", "c"]
            .into_iter()
            .map(|package| Domain {
                package,
                values: Vec::new(),
            })
            .collect(),
        vec![vec![
            (0, Term::Positive(Ranges::singleton(2u32))),
            (1, Term::Positive(Ranges::singleton(2u32))),
        ]],
    );
    let region = model.substitution_region(
        &SelectedDependencies::from_vec(vec![("a", 1u32), ("b", 1), ("c", 5)]),
        &SelectedDependencies::from_vec(vec![("a", 2u32), ("b", 1), ("c", 6)]),
        &vec!["a", "b", "c"],
        &|v: &u32| Ranges::singleton(*v),
        &|v: &u32| Ranges::strictly_higher_than(*v),
        &"a",
    );
    let bounds: Vec<(&str, Vec<Option<u32>>)> = region
        .iter()
        .map(|(package, term)| {
            let states = [None, Some(1u32), Some(2), Some(3)]
                .into_iter()
                .filter(|state| pubgrub::residual::matches(term, state.as_ref()))
                .collect();
            (*package, states)
        })
        .collect();
    assert_eq!(
        bounds,
        vec![
            ("a", vec![Some(1)]),
            ("b", vec![None, Some(1), Some(3)]),
        ]
    );
}
