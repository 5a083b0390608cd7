use std::collections::BTreeMap;

use pubgrub::{
    resolve, resolve_factored_preference_solutions,
    resolve_factored_preference_solutions_with_observer, resolve_maximal_solutions,
    resolve_maximal_solutions_with_observer, resolve_minimal_change_solutions_with_observer,
    resolve_with_observer, MaximalityProbeResult, OfflineDependencyProvider, PackagePreference,
    Ranges, SelectedDependencies, SolverEvent, SolverObserver, VersionOrdering, VersionSet,
};

type Versions = Ranges<u32>;
type Provider = OfflineDependencyProvider<&'static str, Versions>;
type Mapping = fn(&u32) -> Versions;
type Path = Vec<(&'static str, u32)>;

fn one(v: &u32) -> Versions {
    Ranges::singleton(*v)
}

fn above(v: &u32) -> Versions {
    Ranges::strictly_higher_than(*v)
}

fn numeric() -> VersionOrdering<Mapping, Mapping, Mapping> {
    VersionOrdering::new(one, one, above)
}

fn wanted(package: &'static str, version: u32) -> PackagePreference<&'static str, Versions> {
    PackagePreference::selected(package, Ranges::singleton(version))
}

fn selected(
    solution: &SelectedDependencies<&'static str, u32>,
    packages: &[&'static str],
) -> BTreeMap<&'static str, u32> {
    packages
        .iter()
        .filter_map(|package| solution.get(package).map(|version| (*package, *version)))
        .collect()
}

/// Keeps the decisions in force, and notes them where a solution is announced.
#[derive(Default)]
struct PathKeeper {
    run: Path,
    probe: Option<Path>,
    best: Path,
    announced: Vec<BTreeMap<&'static str, u32>>,
    outcomes: Vec<(&'static str, MaximalityProbeResult)>,
}

impl PathKeeper {
    fn path(&mut self) -> &mut Path {
        match &mut self.probe {
            Some(path) => path,
            None => &mut self.run,
        }
    }
}

impl SolverObserver<&'static str, Versions, String> for PathKeeper {
    fn on_event(&mut self, event: SolverEvent<'_, &'static str, Versions, String>) {
        match event {
            SolverEvent::Decision { package, version, .. } => self.path().push((*package, *version)),
            SolverEvent::Backtrack { to_level, .. } => self.path().truncate(to_level as usize),
            SolverEvent::EnumerationRunFinished { .. } => self.best = self.run.clone(),
            SolverEvent::MaximalityProbeStarted { .. } => self.probe = Some(Vec::new()),
            SolverEvent::MaximalityProbeFinished { package, result } => {
                self.outcomes.push((*package, result));
                let path = self.probe.take().unwrap();
                if matches!(result, MaximalityProbeResult::Improved) {
                    self.best = path;
                }
            }
            SolverEvent::Solution => self.announced.push(self.best.iter().copied().collect()),
            _ => {}
        }
    }
}

/// Keeps the events of a search for preferences as text.
#[derive(Default)]
struct SearchLog {
    events: Vec<String>,
}

impl SolverObserver<&'static str, Versions, String> for SearchLog {
    fn on_event(&mut self, event: SolverEvent<'_, &'static str, Versions, String>) {
        match event {
            SolverEvent::EnumerationRunStarted { run } => self.events.push(format!("run {run}")),
            SolverEvent::EnumerationRunFinished { run } => self.events.push(format!("end {run}")),
            SolverEvent::PreferenceProbeStarted { package } => {
                self.events.push(format!("without {package}"))
            }
            SolverEvent::PreferenceProbeFinished { package, result } => {
                self.events.push(format!("{package} {result:?}"))
            }
            _ => {}
        }
    }
}

/// The steps of a run as text, with what is named by each cause.
#[derive(Default)]
struct StepLog {
    events: Vec<String>,
}

impl SolverObserver<&'static str, Versions, String> for StepLog {
    fn on_event(&mut self, event: SolverEvent<'_, &'static str, Versions, String>) {
        let named = |packages: Vec<&&'static str>| {
            let mut names: Vec<&str> = packages.into_iter().copied().collect();
            names.sort();
            names.join(" ")
        };
        match event {
            SolverEvent::PackageChoice { package, .. } => {
                self.events.push(format!("package {package}"))
            }
            SolverEvent::VersionChoice { package, version, .. } => {
                self.events.push(format!("version {package} {version}"))
            }
            SolverEvent::Decision { package, version, decision_level } => {
                self.events.push(format!("decision {package} {version} {decision_level}"))
            }
            SolverEvent::NoVersion { package, .. } => self.events.push(format!("none {package}")),
            SolverEvent::Derivation { package, cause, .. } => self
                .events
                .push(format!("derivation {package} by {}", named(cause.packages()))),
            SolverEvent::Conflict { cause } => self
                .events
                .push(format!("conflict by {}", named(cause.packages()))),
            SolverEvent::Backtrack { from_level, to_level, cause } => self.events.push(format!(
                "back from {from_level} to {to_level} by {}",
                named(cause.packages())
            )),
            SolverEvent::Solution => self.events.push("solution".to_string()),
            _ => {}
        }
    }
}

/// Packages a and b cannot both be at 2.
fn tradeoff() -> Provider {
    let mut provider = Provider::new();
    provider.add_dependencies("root", 1, vec![("a", Ranges::full()), ("b", Ranges::full())]);
    provider.add_dependencies("a", 1, vec![]);
    provider.add_dependencies("a", 2, vec![("b", Ranges::singleton(1))]);
    provider.add_dependencies("b", 1, vec![]);
    provider.add_dependencies("b", 2, vec![]);
    provider
}

#[test]
fn solutions_are_returned_in_the_order_in_which_they_are_announced() {
    let mut keeper = PathKeeper::default();
    let solutions = resolve_maximal_solutions_with_observer(
        &tradeoff(),
        "root",
        1,
        vec!["a", "b"],
        numeric(),
        &mut keeper,
    )
    .unwrap();
    let returned: Vec<_> = solutions
        .iter()
        .map(|solution| selected(solution, &["root", "a", "b"]))
        .collect();
    assert_eq!(returned.len(), 2);
    assert_eq!(keeper.announced, returned);
}

#[test]
fn groups_of_solutions_are_announced_in_their_order() {
    let mut keeper = PathKeeper::default();
    let solutions = resolve_minimal_change_solutions_with_observer(
        &tradeoff(),
        "root",
        1,
        vec![wanted("a", 2), wanted("b", 2)],
        vec!["a", "b"],
        numeric(),
        &mut keeper,
    )
    .unwrap();
    let returned: Vec<_> = solutions
        .iter()
        .map(|solution| selected(solution, &["root", "a", "b"]))
        .collect();
    assert_eq!(returned.len(), 2);
    assert_eq!(keeper.announced, returned);
    assert_eq!(returned[0]["b"], 2);
    assert_eq!(returned[1]["a"], 2);
}

#[test]
fn a_climb_ends_with_a_try_of_every_projected_package() {
    let mut keeper = PathKeeper::default();
    resolve_maximal_solutions_with_observer(
        &tradeoff(),
        "root",
        1,
        vec!["a", "b"],
        numeric(),
        &mut keeper,
    )
    .unwrap();
    let last: Vec<_> = keeper.outcomes.iter().rev().take(2).rev().collect();
    assert_eq!(last[0].0, "a");
    assert_eq!(last[1].0, "b");
    assert!(matches!(last[0].1, MaximalityProbeResult::NoImprovement));
    assert!(matches!(last[1].1, MaximalityProbeResult::NoImprovement));
}

#[test]
fn preferences_are_given_up_in_order_and_only_where_they_are_blamed() {
    let mut provider = Provider::new();
    provider.add_dependencies("root", 1, vec![]);
    provider.add_dependencies("b", 1, vec![]);
    provider.add_dependencies("c", 1, vec![]);
    let mut log = SearchLog::default();
    resolve_factored_preference_solutions_with_observer(
        &provider,
        "root",
        1,
        vec![vec![wanted("impossible", 1), wanted("b", 1), wanted("c", 1)]],
        &mut log,
    )
    .unwrap();
    assert_eq!(
        log.events,
        [
            "run 1",
            "end 1",
            "run 2",
            "without impossible",
            "impossible Improved",
            "end 2",
        ]
    );
}

#[test]
fn each_component_is_searched_in_turn() {
    let mut provider = Provider::new();
    provider.add_dependencies("root", 1, vec![]);
    provider.add_dependencies("b", 1, vec![]);
    let mut log = SearchLog::default();
    resolve_factored_preference_solutions_with_observer(
        &provider,
        "root",
        1,
        vec![vec![wanted("b", 1)], vec![wanted("missing", 1)]],
        &mut log,
    )
    .unwrap();
    assert_eq!(
        log.events,
        ["run 1", "end 1", "run 1", "end 1", "run 2", "without missing", "missing Improved", "end 2"]
    );
}

#[test]
fn a_failed_search_ends_with_a_run_without_preferences() {
    let mut provider = Provider::new();
    provider.add_dependencies("root", 1, vec![("missing", Ranges::full())]);
    let mut log = SearchLog::default();
    assert!(resolve_factored_preference_solutions_with_observer(
        &provider,
        "root",
        1,
        vec![vec![wanted("missing", 1)]],
        &mut log,
    )
    .is_err());
    assert_eq!(
        log.events.last().map(String::as_str),
        Some(format!("end {}", log.events.iter().filter(|e| e.starts_with("run")).count()).as_str())
    );
    assert!(log.events[log.events.len() - 2].starts_with("run"));
}

#[test]
fn a_setback_tells_of_a_conflict_and_of_the_step_taken_instead() {
    let mut provider = Provider::new();
    provider.add_dependencies("root", 1, vec![("a", Ranges::full())]);
    provider.add_dependencies("a", 2, vec![("missing", Ranges::full())]);
    provider.add_dependencies("a", 1, vec![]);
    let mut log = StepLog::default();
    let solution = resolve_with_observer(&provider, "root", 1, &mut log).unwrap();
    assert_eq!(solution.get(&"a"), Some(&1));
    let place = |text: &str| {
        log.events
            .iter()
            .position(|event| event.starts_with(text))
            .unwrap_or_else(|| panic!("{text} in {:?}", log.events))
    };
    assert!(place("version a 2") < place("none missing"));
    assert!(place("none missing") < place("version a 1"));
    let back = place("back from");
    assert!(log.events[back - 1].starts_with("conflict"));
    assert!(log.events[back + 1].starts_with("derivation"));
    assert_eq!(log.events[0], "derivation root by root");
    assert_eq!(log.events[1], "package root");
    assert_eq!(log.events[2], "version root 1");
    assert_eq!(log.events[3], "decision root 1 1");
    assert_eq!(log.events[4], "derivation a by a root");
    assert_eq!(log.events.last().map(String::as_str), Some("solution"));
}

#[test]
fn what_is_observed_changes_no_result() {
    let provider = tradeoff();
    let mut log = StepLog::default();
    let observed = resolve_with_observer(&provider, "root", 1, &mut log).unwrap();
    assert_eq!(observed, resolve(&provider, "root", 1).unwrap());
    let mut keeper = PathKeeper::default();
    let observed = resolve_maximal_solutions_with_observer(
        &provider,
        "root",
        1,
        vec!["a", "b"],
        numeric(),
        &mut keeper,
    )
    .unwrap();
    let plain =
        resolve_maximal_solutions(&provider, "root", 1, vec!["a", "b"], numeric()).unwrap();
    assert_eq!(observed, plain);
    let mut search = SearchLog::default();
    let components = || vec![vec![wanted("a", 2), wanted("b", 2)]];
    let observed = resolve_factored_preference_solutions_with_observer(
        &provider,
        "root",
        1,
        components(),
        &mut search,
    )
    .unwrap();
    let plain = resolve_factored_preference_solutions(&provider, "root", 1, components()).unwrap();
    assert_eq!(observed.factors().len(), plain.factors().len());
    assert_eq!(observed.factors()[0].alternatives().len(), 2);
    assert_eq!(plain.factors()[0].alternatives().len(), 2);
}
