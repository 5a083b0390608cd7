use std::cell::RefCell;

use pubgrub::{
    resolve, resolve_factored_preference_solutions, resolve_maximal_solutions,
    resolve_with_observer, Dependencies,
    DependencyConstraints, DependencyProvider, DerivationTree, External,
    IncompatibilityConstraint, IncompatibilityConstraintTerm, IncompatibilityConstraints,
    OfflineDependencyProvider, PackagePreference, PackageResolutionStatistics, PubGrubError, Ranges, SolverEvent,
    SolverObserver, VersionOrdering, VersionSet,
};

type Versions = Ranges<u32>;
type Offline = OfflineDependencyProvider<&'static str, Versions>;
type Condition = IncompatibilityConstraintTerm<String, Versions>;

#[derive(Debug)]
struct Release {
    package: &'static str,
    version: u32,
    requirements: Option<Vec<(&'static str, Versions)>>,
    conflicts: Vec<Vec<Condition>>,
}

/// A provider with conditional incompatibilities, whose methods can be made to fail.
#[derive(Debug, Default)]
struct Registry {
    releases: Vec<Release>,
    fails_to_choose: Option<&'static str>,
    fails_to_list_dependencies: Option<&'static str>,
    fails_to_list_incompatibilities: Option<&'static str>,
    cancel_after: Option<usize>,
    polled: RefCell<usize>,
    conflict_counts: RefCell<Vec<(String, u32)>>,
}

impl Registry {
    fn with(mut self, package: &'static str, version: u32) -> Self {
        self.releases.push(Release {
            package,
            version,
            requirements: Some(Vec::new()),
            conflicts: Vec::new(),
        });
        self
    }

    fn requiring(mut self, dependency: &'static str, range: Versions) -> Self {
        let release = self.releases.last_mut().unwrap();
        release
            .requirements
            .get_or_insert_with(Vec::new)
            .push((dependency, range));
        self
    }

    fn unavailable(mut self) -> Self {
        self.releases.last_mut().unwrap().requirements = None;
        self
    }

    fn conflicting(mut self, terms: Vec<Condition>) -> Self {
        self.releases.last_mut().unwrap().conflicts.push(terms);
        self
    }

    fn find(&self, package: &str, version: u32) -> &Release {
        self.releases
            .iter()
            .find(|release| release.package == package && release.version == version)
            .unwrap()
    }
}

fn with(package: &str, range: Versions) -> Condition {
    IncompatibilityConstraintTerm::Positive(package.to_string(), range)
}

fn without(package: &str) -> Condition {
    IncompatibilityConstraintTerm::Negative(package.to_string(), Ranges::full())
}

impl DependencyProvider for Registry {
    type P = String;
    type VS = Versions;
    type Priority = u32;
    type M = String;
    type Err = String;

    fn offers_are_finite(&self) {}

    fn prioritize(
        &self,
        package: &String,
        _range: &Versions,
        package_conflicts_counts: &PackageResolutionStatistics,
    ) -> u32 {
        let count = package_conflicts_counts.conflict_count();
        self.conflict_counts
            .borrow_mut()
            .push((package.clone(), count));
        count
    }

    fn choose_version(&self, package: &String, range: &Versions) -> Result<Option<u32>, String> {
        if self.fails_to_choose == Some(package.as_str()) {
            return Err("no index".to_string());
        }
        Ok(self
            .releases
            .iter()
            .filter(|release| release.package == package && range.contains(&release.version))
            .map(|release| release.version)
            .max())
    }

    fn get_dependencies(
        &self,
        package: &String,
        version: &u32,
    ) -> Result<Dependencies<String, Versions, String>, String> {
        if self.fails_to_list_dependencies == Some(package.as_str()) {
            return Err("no metadata".to_string());
        }
        Ok(match &self.find(package, *version).requirements {
            None => Dependencies::Unavailable("yanked".to_string()),
            Some(requirements) => Dependencies::Available(DependencyConstraints::from_vec(
                requirements
                    .iter()
                    .map(|(dependency, range)| (dependency.to_string(), range.clone()))
                    .collect(),
            )),
        })
    }

    fn get_incompatibilities(
        &self,
        package: &String,
        version: &u32,
    ) -> Result<IncompatibilityConstraints<String, Versions, String>, String> {
        if self.fails_to_list_incompatibilities == Some(package.as_str()) {
            return Err("no clauses".to_string());
        }
        Ok(self
            .find(package, *version)
            .conflicts
            .iter()
            .map(|terms| IncompatibilityConstraint {
                terms: terms.clone(),
                reason: "declared".to_string(),
            })
            .collect())
    }

    fn declarations_are_conflicts(
        &self,
        _package: &String,
        _version: &u32,
        _constraints: IncompatibilityConstraints<String, Versions, String>,
    ) {
    }

    fn should_cancel(&self) -> Result<(), String> {
        *self.polled.borrow_mut() += 1;
        match self.cancel_after {
            Some(limit) if *self.polled.borrow() > limit => Err("cancelled".to_string()),
            _ => Ok(()),
        }
    }
}

fn solve(registry: &Registry) -> Vec<(String, u32)> {
    let mut solution = resolve(registry, "root".to_string(), 1).unwrap().into_vec();
    solution.sort();
    solution
}

fn pairs(expected: &[(&str, u32)]) -> Vec<(String, u32)> {
    expected
        .iter()
        .map(|(package, version)| (package.to_string(), *version))
        .collect()
}

#[test]
fn an_unknown_root_package_has_no_solution() {
    let provider = Offline::new();
    assert!(matches!(
        resolve(&provider, "root", 1),
        Err(PubGrubError::NoSolution(_))
    ));
}

#[test]
fn the_newest_versions_that_fit_together_are_selected() {
    let registry = Registry::default()
        .with("root", 1)
        .requiring("menu", Ranges::full())
        .requiring("icons", Ranges::singleton(1))
        .with("menu", 2)
        .requiring("dropdown", Ranges::higher_than(2))
        .with("menu", 1)
        .requiring("dropdown", Ranges::full())
        .with("dropdown", 2)
        .requiring("icons", Ranges::singleton(2))
        .with("dropdown", 1)
        .with("icons", 2)
        .with("icons", 1);
    assert_eq!(
        solve(&registry),
        pairs(&[("dropdown", 1), ("icons", 1), ("menu", 1), ("root", 1)])
    );
}

#[test]
fn only_needed_packages_are_selected() {
    let registry = Registry::default()
        .with("root", 1)
        .requiring("a", Ranges::full())
        .with("a", 2)
        .requiring("helper", Ranges::full())
        .requiring("missing", Ranges::full())
        .with("a", 1)
        .with("helper", 1)
        .with("unrelated", 1);
    assert_eq!(solve(&registry), pairs(&[("a", 1), ("root", 1)]));
}

#[test]
fn a_version_with_unavailable_dependencies_is_avoided() {
    let registry = Registry::default()
        .with("root", 1)
        .requiring("a", Ranges::full())
        .with("a", 2)
        .unavailable()
        .with("a", 1);
    assert_eq!(solve(&registry), pairs(&[("a", 1), ("root", 1)]));
}

#[test]
fn unavailable_dependencies_of_the_only_version_are_reported() {
    let registry = Registry::default()
        .with("root", 1)
        .requiring("a", Ranges::full())
        .with("a", 1)
        .unavailable();
    let Err(PubGrubError::NoSolution(tree)) = resolve(&registry, "root".to_string(), 1) else {
        panic!("a cannot be selected");
    };
    let mut externals = Vec::new();
    collect_externals(&tree, &mut externals);
    assert!(externals.iter().any(|external| matches!(
        external,
        External::Custom(package, range, reason)
            if package == "a" && range.contains(&1) && reason == "yanked"
    )));
    assert!(externals.iter().any(|external| matches!(
        external,
        External::FromDependencyOf(package, _, dependency, _)
            if package == "root" && dependency == "a"
    )));
}

fn collect_externals<'a>(
    tree: &'a DerivationTree<String, Versions, String>,
    externals: &mut Vec<&'a External<String, Versions, String>>,
) {
    match tree {
        DerivationTree::External(external) => externals.push(external),
        DerivationTree::Derived(derived) => {
            collect_externals(&derived.cause1, externals);
            collect_externals(&derived.cause2, externals);
        }
    }
}

#[test]
fn a_positive_condition_rules_out_a_combination() {
    let registry = Registry::default()
        .with("root", 1)
        .requiring("a", Ranges::full())
        .requiring("b", Ranges::full())
        .with("a", 1)
        .conflicting(vec![with("b", Ranges::singleton(2))])
        .with("b", 2)
        .with("b", 1);
    assert_eq!(
        solve(&registry),
        pairs(&[("a", 1), ("b", 1), ("root", 1)])
    );
}

#[test]
fn a_negative_condition_asks_for_a_package() {
    let registry = Registry::default()
        .with("root", 1)
        .requiring("a", Ranges::full())
        .with("a", 1)
        .conflicting(vec![without("b")])
        .with("b", 1);
    assert_eq!(
        solve(&registry),
        pairs(&[("a", 1), ("b", 1), ("root", 1)])
    );
}

#[test]
fn two_negative_conditions_ask_for_one_of_two_packages() {
    let registry = Registry::default()
        .with("root", 1)
        .requiring("a", Ranges::full())
        .with("a", 1)
        .conflicting(vec![without("b"), without("c")])
        .with("c", 1);
    assert_eq!(
        solve(&registry),
        pairs(&[("a", 1), ("c", 1), ("root", 1)])
    );
}

#[test]
fn a_condition_without_further_terms_rules_out_the_version() {
    let registry = Registry::default()
        .with("root", 1)
        .requiring("a", Ranges::full())
        .with("a", 2)
        .conflicting(Vec::new())
        .with("a", 1);
    assert_eq!(solve(&registry), pairs(&[("a", 1), ("root", 1)]));
}

#[test]
fn declared_conditions_are_retained_in_the_report() {
    let registry = Registry::default()
        .with("root", 1)
        .requiring("a", Ranges::full())
        .requiring("b", Ranges::full())
        .with("a", 1)
        .conflicting(vec![with("b", Ranges::full())])
        .with("b", 1);
    let Err(PubGrubError::NoSolution(tree)) = resolve(&registry, "root".to_string(), 1) else {
        panic!("a and b exclude each other");
    };
    let mut externals = Vec::new();
    collect_externals(&tree, &mut externals);
    assert!(externals.iter().any(|external| matches!(
        external,
        External::Incompatible { terms, reason }
            if terms.len() == 2 && reason == "declared"
    )));
}

#[test]
fn an_error_while_choosing_a_version_is_returned() {
    let mut registry = Registry::default()
        .with("root", 1)
        .requiring("a", Ranges::full())
        .with("a", 1);
    registry.fails_to_choose = Some("a");
    assert!(matches!(
        resolve(&registry, "root".to_string(), 1),
        Err(PubGrubError::ErrorChoosingVersion { package, source })
            if package == "a" && source == "no index"
    ));
}

#[test]
fn an_error_while_retrieving_dependencies_is_returned() {
    let mut registry = Registry::default()
        .with("root", 1)
        .requiring("a", Ranges::full())
        .with("a", 1);
    registry.fails_to_list_dependencies = Some("a");
    assert!(matches!(
        resolve(&registry, "root".to_string(), 1),
        Err(PubGrubError::ErrorRetrievingDependencies { package, version: 1, source })
            if package == "a" && source == "no metadata"
    ));
}

#[test]
fn an_error_while_retrieving_incompatibilities_is_returned() {
    let mut registry = Registry::default()
        .with("root", 1)
        .requiring("a", Ranges::full())
        .with("a", 1);
    registry.fails_to_list_incompatibilities = Some("root");
    assert!(matches!(
        resolve(&registry, "root".to_string(), 1),
        Err(PubGrubError::ErrorRetrievingDependencies { package, version: 1, source })
            if package == "root" && source == "no clauses"
    ));
}

#[test]
fn a_cancelled_resolution_is_terminated() {
    for cancel_after in [0, 1, 2] {
        let mut registry = Registry::default()
            .with("root", 1)
            .requiring("a", Ranges::full())
            .with("a", 1);
        registry.cancel_after = Some(cancel_after);
        assert!(matches!(
            resolve(&registry, "root".to_string(), 1),
            Err(PubGrubError::ErrorInShouldCancel(source)) if source == "cancelled"
        ));
        assert_eq!(*registry.polled.borrow(), cancel_after + 1);
    }
}

#[test]
fn an_error_of_the_last_solve_without_preferences_is_returned() {
    let attempt = |cancel_after: Option<usize>| {
        let mut registry = Registry::default()
            .with("root", 1)
            .requiring("a", Ranges::full())
            .requiring("missing", Ranges::full())
            .with("a", 1);
        registry.cancel_after = cancel_after;
        let result = pubgrub::resolve_factored_preference_solutions(
            &registry,
            "root".to_string(),
            1,
            vec![vec![PackagePreference::selected(
                "a".to_string(),
                Ranges::singleton(2),
            )]],
        );
        let polled = *registry.polled.borrow();
        (result.err(), polled)
    };
    let (error, polls) = attempt(None);
    assert!(matches!(error, Some(PubGrubError::NoSolution(_))));
    let (error, _) = attempt(Some(polls - 1));
    assert!(matches!(
        error,
        Some(PubGrubError::ErrorInShouldCancel(source)) if source == "cancelled"
    ));
}

#[test]
fn conclusions_follow_from_their_causes() {
    fn check(tree: &DerivationTree<&'static str, Versions, String>) -> usize {
        match tree {
            DerivationTree::External(_) => 0,
            DerivationTree::Derived(derived) => {
                let named = tree.packages();
                for (package, _) in &derived.terms {
                    assert!(named.iter().any(|name| *name == package));
                }
                1 + check(&derived.cause1) + check(&derived.cause2)
            }
        }
    }
    let mut provider = Offline::new();
    provider.add_dependencies("root", 1, vec![("a", Ranges::full())]);
    provider.add_dependencies("a", 1, vec![("missing", Ranges::full())]);
    match resolve(&provider, "root", 1) {
        Err(PubGrubError::NoSolution(tree)) => assert!(check(&tree) > 0),
        _ => unreachable!(),
    }
}

#[test]
fn packages_in_conflict_are_counted() {
    let registry = Registry::default()
        .with("root", 1)
        .requiring("a", Ranges::full())
        .requiring("b", Ranges::full())
        .with("a", 2)
        .requiring("c", Ranges::singleton(2))
        .with("a", 1)
        .with("b", 1)
        .requiring("c", Ranges::singleton(1))
        .with("c", 2)
        .with("c", 1);
    assert_eq!(
        solve(&registry),
        pairs(&[("a", 1), ("b", 1), ("c", 1), ("root", 1)])
    );
    let counts = registry.conflict_counts.borrow();
    assert_eq!(counts[0], ("root".to_string(), 0));
    assert!(counts.iter().any(|(_, count)| *count > 0));
}

#[test]
fn statistics_start_at_zero_and_add_up() {
    let mut statistics = PackageResolutionStatistics::new();
    assert_eq!(statistics.conflict_count(), 0);
    statistics.note_propagation_affected();
    statistics.note_propagation_culprit();
    statistics.note_propagation_culprit();
    statistics.note_dependencies_affected();
    statistics.note_dependencies_culprit();
    assert_eq!(statistics.conflict_count(), 5);
    assert_eq!(statistics.saturating_conflict_count(), 5);
}

#[derive(Default)]
struct Paths {
    runs: i32,
    probes: i32,
    solutions: usize,
    last_is_solution: bool,
}

impl SolverObserver<&'static str, Versions, String> for Paths {
    fn on_event(&mut self, event: SolverEvent<'_, &'static str, Versions, String>) {
        self.last_is_solution = false;
        match event {
            SolverEvent::Solution => {
                self.solutions += 1;
                self.last_is_solution = true;
            }
            SolverEvent::EnumerationRunStarted { .. } => self.runs += 1,
            SolverEvent::EnumerationRunFinished { .. } => self.runs -= 1,
            SolverEvent::MaximalityProbeStarted { .. }
            | SolverEvent::PreferenceProbeStarted { .. } => self.probes += 1,
            SolverEvent::MaximalityProbeFinished { .. }
            | SolverEvent::PreferenceProbeFinished { .. } => self.probes -= 1,
            _ => {}
        }
    }
}

#[test]
fn a_solution_is_the_last_event_of_a_successful_run() {
    let mut provider = Offline::new();
    provider.add_dependencies("root", 1, vec![("a", Ranges::full())]);
    provider.add_dependencies("a", 1, vec![]);
    let mut paths = Paths::default();
    resolve_with_observer(&provider, "root", 1, &mut paths).unwrap();
    assert_eq!(paths.solutions, 1);
    assert!(paths.last_is_solution);
}

#[test]
fn runs_and_probes_that_start_also_finish() {
    let mut provider = Offline::new();
    provider.add_dependencies(
        "root",
        1,
        vec![("a", Ranges::full()), ("b", Ranges::full())],
    );
    provider.add_dependencies("a", 1, vec![]);
    provider.add_dependencies("a", 2, vec![("b", Ranges::singleton(1))]);
    provider.add_dependencies("b", 1, vec![]);
    provider.add_dependencies("b", 2, vec![("a", Ranges::singleton(1))]);
    let mut paths = Paths::default();
    let solutions = pubgrub::resolve_maximal_solutions_with_observer(
        &provider,
        "root",
        1,
        vec!["a", "b"],
        VersionOrdering::new(
            |v: &u32| Ranges::singleton(*v),
            |v: &u32| Ranges::singleton(*v),
            |v: &u32| Ranges::strictly_higher_than(*v),
        ),
        &mut paths,
    )
    .unwrap();
    assert_eq!(solutions.len(), 2);
    assert_eq!((paths.runs, paths.probes, paths.solutions), (0, 0, 2));
}

fn flaw(
    same_version: fn(&u32) -> Versions,
    same_precedence: fn(&u32) -> Versions,
    strictly_higher: fn(&u32) -> Versions,
) -> &'static str {
    let mut provider = Offline::new();
    provider.add_dependencies("root", 1, vec![("a", Ranges::full())]);
    provider.add_dependencies("a", 1, vec![]);
    match resolve_maximal_solutions(
        &provider,
        "root",
        1,
        vec!["a"],
        VersionOrdering::new(same_version, same_precedence, strictly_higher),
    ) {
        Err(PubGrubError::InvalidVersionOrdering {
            package,
            version,
            reason,
        }) => {
            assert_eq!((package, version), ("a", 1));
            reason
        }
        _ => panic!("the ordering must be rejected"),
    }
}

#[test]
fn every_flaw_of_an_ordering_is_named() {
    fn one(v: &u32) -> Versions {
        Ranges::singleton(*v)
    }
    fn none(_: &u32) -> Versions {
        Ranges::empty()
    }
    fn all(_: &u32) -> Versions {
        Ranges::full()
    }
    fn above(v: &u32) -> Versions {
        Ranges::strictly_higher_than(*v)
    }
    fn from(v: &u32) -> Versions {
        Ranges::higher_than(*v)
    }
    assert_eq!(
        flaw(none, one, above),
        "same_version must contain the selected version"
    );
    assert_eq!(
        flaw(one, none, above),
        "same_precedence must contain the selected version"
    );
    assert_eq!(
        flaw(from, one, above),
        "same_version must be a subset of same_precedence"
    );
    assert_eq!(
        flaw(one, one, from),
        "strictly_higher must not contain the selected version"
    );
    assert_eq!(
        flaw(one, all, above),
        "same_precedence and strictly_higher must be disjoint"
    );
}

/// A provider that declares no incompatibilities and ranks no package above another.
#[derive(Debug)]
struct Plain(Registry);

impl DependencyProvider for Plain {
    type P = String;
    type VS = Versions;
    type Priority = u32;
    type M = String;
    type Err = String;

    fn offers_are_finite(&self) {}

    fn prioritize(
        &self,
        _package: &String,
        _range: &Versions,
        _package_conflicts_counts: &PackageResolutionStatistics,
    ) -> u32 {
        0
    }

    fn choose_version(&self, package: &String, range: &Versions) -> Result<Option<u32>, String> {
        self.0.choose_version(package, range)
    }

    fn get_dependencies(
        &self,
        package: &String,
        version: &u32,
    ) -> Result<Dependencies<String, Versions, String>, String> {
        self.0.get_dependencies(package, version)
    }

    fn declarations_are_conflicts(
        &self,
        _package: &String,
        _version: &u32,
        _constraints: IncompatibilityConstraints<String, Versions, String>,
    ) {
    }
}

#[derive(Default)]
struct Chosen(Vec<String>);

impl SolverObserver<String, Versions, String> for Chosen {
    fn on_event(&mut self, event: SolverEvent<'_, String, Versions, String>) {
        if let SolverEvent::PackageChoice { package, .. } = event {
            self.0.push(package.clone());
        }
    }
}

#[test]
fn a_provider_need_not_declare_incompatibilities() {
    let registry = Registry::default()
        .with("root", 1)
        .requiring("a", Ranges::full())
        .with("a", 1)
        .with("a", 2)
        .conflicting(vec![with("root", Ranges::full())]);
    assert_eq!(
        Plain(Registry::default()).get_incompatibilities(&"a".to_string(), &2),
        Ok(Vec::new())
    );
    let mut solution = resolve(&Plain(registry), "root".to_string(), 1)
        .unwrap()
        .into_vec();
    solution.sort();
    assert_eq!(solution, pairs(&[("a", 2), ("root", 1)]));
}

#[test]
fn of_equal_packages_the_one_that_was_narrowed_first_is_chosen_first() {
    let registry = Registry::default()
        .with("root", 1)
        .requiring("a", Ranges::full())
        .requiring("b", Ranges::full())
        .with("a", 1)
        .requiring("x", Ranges::full())
        .with("b", 1)
        .requiring("x", Ranges::full())
        .with("x", 1);
    let mut chosen = Chosen::default();
    resolve_with_observer(&Plain(registry), "root".to_string(), 1, &mut chosen).unwrap();
    assert_eq!(chosen.0.len(), 4);
    assert_eq!(chosen.0[0], "root");
    assert_eq!(chosen.0[3], "x");
}

#[test]
fn a_decision_narrows_what_it_requires_before_the_next_choice() {
    let mut provider = Offline::new();
    provider.add_dependencies(
        "root",
        1,
        vec![
            ("a", Ranges::full()),
            ("b", Ranges::full()),
            ("c", Ranges::full()),
        ],
    );
    provider.add_dependencies("a", 1, vec![("c", Ranges::between(2, 4))]);
    provider.add_dependencies("b", 1, vec![]);
    provider.add_dependencies("b", 2, vec![]);
    provider.add_dependencies("c", 1, vec![]);
    provider.add_dependencies("c", 2, vec![]);
    provider.add_dependencies("c", 3, vec![("b", Ranges::singleton(1))]);
    provider.add_dependencies("c", 4, vec![]);
    let solution = resolve(&provider, "root", 1).unwrap();
    assert_eq!(solution.get(&"a"), Some(&1));
    assert_eq!(solution.get(&"c"), Some(&3));
    assert_eq!(solution.get(&"b"), Some(&1));
}

#[test]
fn without_components_an_error_of_the_provider_is_returned() {
    let registry = Registry {
        fails_to_choose: Some("a"),
        ..Registry::default()
            .with("root", 1)
            .requiring("a", Ranges::full())
            .with("a", 1)
    };
    let root = || "root".to_string();
    assert!(matches!(
        resolve(&registry, root(), 1),
        Err(PubGrubError::ErrorChoosingVersion { package, .. }) if package == "a"
    ));
    assert!(matches!(
        resolve_factored_preference_solutions(&registry, root(), 1, vec![]),
        Err(PubGrubError::ErrorChoosingVersion { package, .. }) if package == "a"
    ));
}
