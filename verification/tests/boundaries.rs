use pubgrub::{
    resolve_factored_preference_solutions_with_observer, resolve_maximal_solutions,
    resolve_maximal_solutions_with_observer, resolve_minimal_change_solutions_with_observer,
    MaximalityProbeResult, OfflineDependencyProvider, PackagePreference, Ranges, SolverEvent,
    SolverObserver, VersionOrdering, VersionSet,
};

type Versions = Ranges<u32>;
type Provider = OfflineDependencyProvider<&'static str, Versions>;
type Mapping = fn(&u32) -> Versions;

fn one(v: &u32) -> Versions {
    Ranges::singleton(*v)
}

fn above(v: &u32) -> Versions {
    Ranges::strictly_higher_than(*v)
}

fn numeric() -> VersionOrdering<Mapping, Mapping, Mapping> {
    VersionOrdering::new(one, one, above)
}

#[derive(Debug, Clone, PartialEq, Eq)]
enum Step {
    Start(u64),
    Finish(u64),
    Probe(&'static str),
    Probed(&'static str, MaximalityProbeResult),
    Ask(&'static str),
    Asked(&'static str, MaximalityProbeResult),
    Solution,
    Decision(&'static str, u32),
    Other,
    Tree,
}

/// Keeps every event, and asks for derivation trees or declines them.
struct Steps {
    steps: Vec<Step>,
    trees: bool,
}

impl Steps {
    fn new(trees: bool) -> Self {
        Steps {
            steps: Vec::new(),
            trees,
        }
    }

    fn boundaries(&self) -> Vec<Step> {
        self.steps
            .iter()
            .filter(|step| !matches!(step, Step::Decision(_, _) | Step::Other | Step::Tree))
            .cloned()
            .collect()
    }
}

impl SolverObserver<&'static str, Versions, String> for Steps {
    fn on_event(&mut self, event: SolverEvent<'_, &'static str, Versions, String>) {
        self.steps.push(match event {
            SolverEvent::EnumerationRunStarted { run } => Step::Start(run),
            SolverEvent::EnumerationRunFinished { run } => Step::Finish(run),
            SolverEvent::MaximalityProbeStarted { package } => Step::Probe(*package),
            SolverEvent::MaximalityProbeFinished { package, result } => {
                Step::Probed(*package, result)
            }
            SolverEvent::PreferenceProbeStarted { package } => Step::Ask(*package),
            SolverEvent::PreferenceProbeFinished { package, result } => {
                Step::Asked(*package, result)
            }
            SolverEvent::Solution => Step::Solution,
            SolverEvent::Decision {
                package, version, ..
            } => Step::Decision(*package, *version),
            SolverEvent::Derivation { .. }
            | SolverEvent::Conflict { .. }
            | SolverEvent::Backtrack { .. } => Step::Tree,
            _ => Step::Other,
        });
    }

    fn captures_derivation_trees(&self) -> bool {
        self.trees
    }
}

/// Packages a and b cannot both be at 2.
fn tradeoff() -> Provider {
    let mut provider = Provider::new();
    provider.add_dependencies(
        "root",
        1,
        vec![("a", Ranges::full()), ("b", Ranges::full())],
    );
    provider.add_dependencies("a", 1, vec![]);
    provider.add_dependencies("a", 2, vec![("b", Ranges::singleton(1))]);
    provider.add_dependencies("b", 1, vec![]);
    provider.add_dependencies("b", 2, vec![("a", Ranges::singleton(1))]);
    provider
}

/// Runs are numbered in turn from one on, and everything that starts is finished before anything
/// else starts.
fn chapters(boundaries: &[Step]) -> usize {
    let mut chapters = 0;
    let mut run = 0;
    let mut running = false;
    let mut probe = None;
    for step in boundaries {
        match step {
            Step::Start(number) => {
                assert!(!running && probe.is_none());
                if *number == 1 {
                    chapters += 1;
                } else {
                    assert_eq!(*number, run + 1);
                }
                run = *number;
                running = true;
            }
            Step::Finish(number) => {
                assert!(running && probe.is_none() && *number == run);
                running = false;
            }
            Step::Probe(package) => {
                assert!(!running && probe.is_none());
                probe = Some(*package);
            }
            Step::Probed(package, _) => {
                assert!(!running && probe == Some(*package));
                probe = None;
            }
            Step::Ask(package) => {
                assert!(running && probe.is_none());
                probe = Some(*package);
            }
            Step::Asked(package, _) => {
                assert!(running && probe == Some(*package));
                probe = None;
            }
            Step::Solution => assert!(!running && probe.is_none()),
            _ => unreachable!(),
        }
    }
    assert!(!running && probe.is_none());
    chapters
}

#[test]
fn one_run_more_than_solutions_is_reported() {
    let mut steps = Steps::new(false);
    let solutions = resolve_maximal_solutions_with_observer(
        &tradeoff(),
        "root",
        1,
        vec!["a", "b"],
        numeric(),
        &mut steps,
    )
    .unwrap();
    assert_eq!(solutions.len(), 2);
    let boundaries = steps.boundaries();
    assert_eq!(chapters(&boundaries), 1);
    assert!(boundaries.contains(&Step::Start(3)));
    assert!(!boundaries.contains(&Step::Start(4)));
    assert!(!steps.steps.contains(&Step::Tree));
    for solution in &solutions {
        for (package, version) in solution.iter() {
            assert!(steps.steps.contains(&Step::Decision(*package, *version)));
        }
    }
    for package in ["a", "b"] {
        assert!(boundaries.contains(&Step::Probed(
            package,
            MaximalityProbeResult::NoImprovement
        )));
    }
}

#[test]
fn trees_do_not_change_what_is_found() {
    let mut with_trees = Steps::new(true);
    let mut without = Steps::new(false);
    let mut all = Vec::new();
    for steps in [&mut with_trees, &mut without] {
        let solutions = resolve_maximal_solutions_with_observer(
            &tradeoff(),
            "root",
            1,
            vec!["a", "b"],
            numeric(),
            steps,
        )
        .unwrap();
        all.push(solutions);
    }
    assert_eq!(all[0], all[1]);
    let plain =
        resolve_maximal_solutions(&tradeoff(), "root", 1, vec!["a", "b"], numeric()).unwrap();
    assert_eq!(all[0], plain);
    assert!(with_trees.steps.contains(&Step::Tree));
    let others: Vec<_> = with_trees
        .steps
        .iter()
        .filter(|step| **step != Step::Tree)
        .cloned()
        .collect();
    assert_eq!(others, without.steps);
}

#[test]
fn an_empty_projection_takes_one_run() {
    let mut steps = Steps::new(false);
    let solutions = resolve_maximal_solutions_with_observer(
        &tradeoff(),
        "root",
        1,
        vec![],
        numeric(),
        &mut steps,
    )
    .unwrap();
    assert_eq!(solutions.len(), 1);
    assert_eq!(
        steps.boundaries(),
        vec![Step::Start(1), Step::Finish(1), Step::Solution]
    );
}

#[test]
fn factoring_tells_of_boundaries_only() {
    let mut steps = Steps::new(true);
    resolve_factored_preference_solutions_with_observer(
        &tradeoff(),
        "root",
        1,
        vec![vec![
            PackagePreference::selected("a", Ranges::singleton(2)),
            PackagePreference::selected("b", Ranges::singleton(2)),
        ]],
        &mut steps,
    )
    .unwrap();
    assert_eq!(steps.boundaries(), steps.steps);
    assert_eq!(chapters(&steps.steps), 1);
    assert_eq!(
        steps.steps,
        vec![
            Step::Start(1),
            Step::Finish(1),
            Step::Start(2),
            Step::Ask("a"),
            Step::Asked("a", MaximalityProbeResult::Improved),
            Step::Finish(2),
            Step::Start(3),
            Step::Ask("b"),
            Step::Asked("b", MaximalityProbeResult::Improved),
            Step::Finish(3),
        ]
    );
}

#[test]
fn without_components_a_single_run_is_reported() {
    let mut steps = Steps::new(true);
    let product = resolve_factored_preference_solutions_with_observer(
        &tradeoff(),
        "root",
        1,
        vec![],
        &mut steps,
    )
    .unwrap();
    assert!(product.common().is_empty() && product.factors().is_empty());
    assert_eq!(steps.steps, vec![Step::Start(1), Step::Finish(1)]);
}

#[test]
fn minimal_change_tells_of_one_enumeration_per_combination() {
    let mut steps = Steps::new(false);
    let solutions = resolve_minimal_change_solutions_with_observer(
        &tradeoff(),
        "root",
        1,
        vec![
            PackagePreference::selected("a", Ranges::singleton(2)),
            PackagePreference::selected("b", Ranges::singleton(2)),
        ],
        vec!["a", "b"],
        numeric(),
        &mut steps,
    )
    .unwrap();
    assert_eq!(solutions.len(), 2);
    let boundaries = steps.boundaries();
    assert_eq!(chapters(&boundaries), 3);
    assert_eq!(
        boundaries
            .iter()
            .filter(|step| **step == Step::Solution)
            .count(),
        2
    );
}
