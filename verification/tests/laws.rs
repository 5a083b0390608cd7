use std::collections::BTreeSet;

use pubgrub::residual::partition::components;
use pubgrub::{
    resolve, resolve_factored_preference_solutions, resolve_maximal_solutions,
    resolve_maximal_solutions_for_preference_decisions, resolve_maximal_solutions_with_observer,
    resolve_minimal_change_solutions, resolve_minimal_change_solutions_with_observer,
    resolve_with_observer, OfflineDependencyProvider, PackagePreference, PreferenceDecision,
    PubGrubError, Ranges, SelectedDependencies, SolverEvent, SolverObserver, VersionOrdering,
    VersionSet,
};

type Versions = Ranges<u32>;
type Provider = OfflineDependencyProvider<&'static str, Versions>;
type Mapping = fn(&u32) -> Versions;

fn one(v: &u32) -> Versions {
    Ranges::singleton(*v)
}

fn above(v: &u32) -> Versions {
    Ranges::strictly_higher_than(*v)
}

fn numeric() -> VersionOrdering<Mapping, Mapping, Mapping> {
    VersionOrdering::new(one, one, above)
}

fn at(package: &'static str, version: u32) -> PreferenceDecision<&'static str, Versions> {
    PreferenceDecision::new(
        PackagePreference::selected(package, Ranges::singleton(version)),
        true,
    )
}

fn feasible(
    provider: &Provider,
    decisions: Vec<PreferenceDecision<&'static str, Versions>>,
) -> bool {
    match resolve_maximal_solutions_for_preference_decisions(
        provider,
        "root",
        1,
        decisions,
        Vec::new(),
        numeric(),
    ) {
        Ok(solutions) => !solutions.is_empty(),
        Err(PubGrubError::NoSolution(_)) => false,
        Err(error) => panic!("{error:?}"),
    }
}

/// Packages a and b cannot both be at 2, and neither can c and d.
fn two_conflicts() -> Provider {
    let mut provider = Provider::new();
    provider.add_dependencies(
        "root",
        1,
        vec![
            ("a", Ranges::full()),
            ("b", Ranges::full()),
            ("c", Ranges::full()),
            ("d", Ranges::full()),
        ],
    );
    for (first, second) in [("a", "b"), ("c", "d")] {
        provider.add_dependencies(first, 1, vec![]);
        provider.add_dependencies(first, 2, vec![(second, Ranges::singleton(1))]);
        provider.add_dependencies(second, 1, vec![]);
        provider.add_dependencies(second, 2, vec![]);
    }
    provider
}

fn versions(solution: &SelectedDependencies<&'static str, u32>) -> [u32; 4] {
    ["a", "b", "c", "d"].map(|package| *solution.get(&package).unwrap())
}

fn newest() -> Vec<PackagePreference<&'static str, Versions>> {
    ["a", "b", "c", "d"]
        .map(|package| PackagePreference::selected(package, Ranges::singleton(2)))
        .to_vec()
}

fn profile(solution: &SelectedDependencies<&'static str, u32>) -> [bool; 4] {
    versions(solution).map(|version| version == 2)
}

#[test]
fn the_front_holds_every_solution_that_nothing_dominates() {
    let provider = two_conflicts();
    let found: BTreeSet<[u32; 4]> =
        resolve_maximal_solutions(&provider, "root", 1, vec!["a", "b", "c", "d"], numeric())
            .unwrap()
            .iter()
            .map(versions)
            .collect();
    assert_eq!(
        found,
        BTreeSet::from([[1, 2, 1, 2], [1, 2, 2, 1], [2, 1, 1, 2], [2, 1, 2, 1]])
    );
}

#[test]
fn the_front_repeats_nothing() {
    let provider = two_conflicts();
    let solutions =
        resolve_maximal_solutions(&provider, "root", 1, vec!["a", "b", "c", "d"], numeric())
            .unwrap();
    let distinct: BTreeSet<[u32; 4]> = solutions.iter().map(versions).collect();
    assert_eq!(distinct.len(), solutions.len());
}

#[test]
fn a_front_exists_exactly_when_there_is_a_solution() {
    let provider = two_conflicts();
    assert!(feasible(&provider, vec![at("a", 2), at("b", 1)]));
    assert!(!feasible(&provider, vec![at("a", 2), at("b", 2)]));
    assert!(!feasible(&provider, vec![at("a", 3)]));
}

#[test]
fn minimal_changes_preserve_what_they_can() {
    let provider = two_conflicts();
    let found: BTreeSet<[bool; 4]> = resolve_minimal_change_solutions(
        &provider,
        "root",
        1,
        newest(),
        vec!["a", "b", "c", "d"],
        numeric(),
    )
    .unwrap()
    .iter()
    .map(profile)
    .collect();
    for kept in &found {
        for more in &found {
            assert!(kept == more || (0..4).any(|i| kept[i] && !more[i]));
        }
    }
    assert_eq!(found.len(), 4);
}

#[test]
fn the_product_is_the_front_of_all_preferences() {
    let provider = two_conflicts();
    let mut components = vec![newest(), Vec::new()];
    components[1] = components[0].split_off(2);
    let product =
        resolve_factored_preference_solutions(&provider, "root", 1, components).unwrap();
    assert_eq!(product.complete_assignment_count(), Some(4));
    let mut assigned = BTreeSet::new();
    for first in 0..2 {
        for second in 0..2 {
            let decisions = product.decisions_for(&[first, second]).unwrap();
            let solutions = resolve_maximal_solutions_for_preference_decisions(
                &provider,
                "root",
                1,
                decisions,
                Vec::new(),
                numeric(),
            )
            .unwrap();
            assigned.insert(profile(&solutions[0]));
        }
    }
    let front: BTreeSet<[bool; 4]> = resolve_minimal_change_solutions(
        &provider,
        "root",
        1,
        newest(),
        Vec::new(),
        numeric(),
    )
    .unwrap()
    .iter()
    .map(profile)
    .collect();
    assert_eq!(assigned, front);
}

#[test]
fn components_can_be_decided_independently() {
    let provider = two_conflicts();
    let projected = vec!["a", "b", "c", "d"];
    let groups = components(&provider, &"root", &1, &projected, &Vec::new()).unwrap();
    assert_eq!(groups, vec![vec!["a", "b"], vec!["c", "d"]]);
    let pairs = [(1, 1), (1, 2), (2, 1), (2, 2)];
    for (a, b) in pairs {
        for (c, d) in pairs {
            let first = feasible(&provider, vec![at("a", a), at("b", b)]);
            let second = feasible(&provider, vec![at("c", c), at("d", d)]);
            let both = feasible(
                &provider,
                vec![at("a", a), at("b", b), at("c", c), at("d", d)],
            );
            assert_eq!(both, first && second);
        }
    }
}

#[test]
fn nothing_can_be_left_out_of_a_resolution() {
    let mut provider = Provider::new();
    provider.add_dependencies("root", 1, vec![("a", Ranges::full())]);
    provider.add_dependencies(
        "a",
        2,
        vec![("b", Ranges::full()), ("c", Ranges::singleton(1))],
    );
    provider.add_dependencies("a", 1, vec![("d", Ranges::full())]);
    provider.add_dependencies("b", 1, vec![("c", Ranges::singleton(2))]);
    provider.add_dependencies("c", 1, vec![]);
    provider.add_dependencies("c", 2, vec![]);
    provider.add_dependencies("d", 1, vec![]);
    let mut solution = resolve(&provider, "root", 1).unwrap().into_vec();
    solution.sort();
    assert_eq!(solution, vec![("a", 1), ("d", 1), ("root", 1)]);
}

#[test]
fn an_assignment_decides_on_every_preference_once() {
    let provider = two_conflicts();
    let mut components = vec![newest(), Vec::new()];
    components[1] = components[0].split_off(2);
    let product =
        resolve_factored_preference_solutions(&provider, "root", 1, components).unwrap();
    let mut seen = BTreeSet::new();
    for first in 0..2 {
        for second in 0..2 {
            let decisions = product.decisions_for(&[first, second]).unwrap();
            let mut packages: Vec<_> = decisions
                .iter()
                .map(|decision| *decision.preference().package())
                .collect();
            packages.sort();
            assert_eq!(packages, ["a", "b", "c", "d"]);
            seen.insert(
                decisions
                    .iter()
                    .map(|decision| (*decision.preference().package(), decision.is_satisfied()))
                    .collect::<Vec<_>>(),
            );
        }
    }
    assert_eq!(seen.len(), 4);
}

#[test]
fn without_decisions_the_enumeration_is_the_plain_one() {
    let provider = two_conflicts();
    let packages = vec!["a", "b", "c", "d"];
    assert_eq!(
        resolve_maximal_solutions_for_preference_decisions(
            &provider,
            "root",
            1,
            vec![],
            packages.clone(),
            numeric(),
        )
        .unwrap(),
        resolve_maximal_solutions(&provider, "root", 1, packages, numeric()).unwrap()
    );
}

#[test]
fn enumerations_without_anything_to_choose_succeed_like_a_resolution() {
    let mut unsolvable = Provider::new();
    unsolvable.add_dependencies("root", 1, vec![("missing", Ranges::full())]);
    for provider in [two_conflicts(), unsolvable] {
        let resolved = resolve(&provider, "root", 1).is_ok();
        let maximal = resolve_maximal_solutions(&provider, "root", 1, vec![], numeric());
        assert_eq!(maximal.is_ok(), resolved);
        assert!(maximal.map_or(true, |solutions| solutions.len() == 1));
        let factored = resolve_factored_preference_solutions(&provider, "root", 1, vec![]);
        assert_eq!(factored.is_ok(), resolved);
    }
}

/// Keeps what it is told of choices, decisions, runs and searches for upgrades.
struct Diary {
    asks: bool,
    lines: Vec<String>,
    trees: usize,
}

impl Diary {
    fn new(asks: bool) -> Self {
        Diary {
            asks,
            lines: Vec::new(),
            trees: 0,
        }
    }
}

impl SolverObserver<&'static str, Versions, String> for Diary {
    fn captures_derivation_trees(&self) -> bool {
        self.asks
    }

    fn on_event(&mut self, event: SolverEvent<'_, &'static str, Versions, String>) {
        let line = match event {
            SolverEvent::PackageChoice { package, .. } => format!("package {package}"),
            SolverEvent::VersionChoice {
                package, version, ..
            } => format!("version {package} {version}"),
            SolverEvent::NoVersion { package, .. } => format!("none {package}"),
            SolverEvent::Decision {
                package,
                version,
                decision_level,
            } => format!("decision {package} {version} {decision_level}"),
            SolverEvent::EnumerationRunStarted { run } => format!("run {run}"),
            SolverEvent::EnumerationRunFinished { run } => format!("end {run}"),
            SolverEvent::MaximalityProbeStarted { package } => format!("probe {package}"),
            SolverEvent::MaximalityProbeFinished { package, result } => {
                format!("probed {package} {result:?}")
            }
            SolverEvent::Solution => "solution".to_string(),
            _ => {
                self.trees += 1;
                return;
            }
        };
        self.lines.push(line);
    }
}

#[test]
fn observing_a_resolution_changes_nothing() {
    let provider = two_conflicts();
    let mut told = Diary::new(true);
    let mut spared = Diary::new(false);
    let solution = resolve(&provider, "root", 1).unwrap();
    assert_eq!(
        resolve_with_observer(&provider, "root", 1, &mut told).unwrap(),
        solution
    );
    assert_eq!(
        resolve_with_observer(&provider, "root", 1, &mut spared).unwrap(),
        solution
    );
    assert_eq!(told.lines, spared.lines);
    assert!(told.trees > 0);
    assert_eq!(spared.trees, 0);
}

#[test]
fn observing_an_enumeration_changes_nothing() {
    let provider = two_conflicts();
    let packages = vec!["a", "b", "c", "d"];
    let plain =
        resolve_maximal_solutions(&provider, "root", 1, packages.clone(), numeric()).unwrap();
    let mut told = Diary::new(true);
    let mut spared = Diary::new(false);
    for diary in [&mut told, &mut spared] {
        let observed = resolve_maximal_solutions_with_observer(
            &provider,
            "root",
            1,
            packages.clone(),
            numeric(),
            diary,
        )
        .unwrap();
        assert_eq!(observed, plain);
    }
    assert_eq!(told.lines, spared.lines);
}

#[test]
fn observing_minimal_changes_changes_nothing() {
    let provider = two_conflicts();
    let packages = vec!["a", "b", "c", "d"];
    let plain = resolve_minimal_change_solutions(
        &provider,
        "root",
        1,
        newest(),
        packages.clone(),
        numeric(),
    )
    .unwrap();
    let observed = resolve_minimal_change_solutions_with_observer(
        &provider,
        "root",
        1,
        newest(),
        packages,
        numeric(),
        &mut Diary::new(true),
    )
    .unwrap();
    assert_eq!(observed, plain);
    assert_eq!(plain.len(), 4);
}

#[test]
fn without_projected_packages_the_solution_is_that_of_a_resolution() {
    let provider = two_conflicts();
    let solution = resolve(&provider, "root", 1).unwrap();
    assert_eq!(
        resolve_maximal_solutions(&provider, "root", 1, vec![], numeric()).unwrap(),
        vec![solution]
    );
}

#[test]
fn without_preferences_minimal_changes_are_the_plain_enumeration() {
    let provider = two_conflicts();
    let packages = vec!["a", "b", "c", "d"];
    assert_eq!(
        resolve_minimal_change_solutions(
            &provider,
            "root",
            1,
            vec![],
            packages.clone(),
            numeric()
        )
        .unwrap(),
        resolve_maximal_solutions(&provider, "root", 1, packages, numeric()).unwrap()
    );
}
