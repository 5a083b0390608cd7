use pubgrub::{
    DependencyConstraints, FactoredPreferenceSolutions, Package, PackagePreference,
    PreferenceAlternative, PreferenceDecision, PreferenceFactor, Ranges, SelectedDependencies,
    Term, Version, VersionSet,
};

type Versions = Ranges<u32>;

#[test]
fn ranges_hold_the_versions_that_they_name() {
    let cases: [(Versions, [bool; 5]); 9] = [
        (Ranges::empty(), [false; 5]),
        (Ranges::full(), [true; 5]),
        (Ranges::singleton(2), [false, false, true, false, false]),
        (Ranges::higher_than(2), [false, false, true, true, true]),
        (
            Ranges::strictly_higher_than(2),
            [false, false, false, true, true],
        ),
        (Ranges::lower_than(2), [true, true, true, false, false]),
        (
            Ranges::strictly_lower_than(2),
            [true, true, false, false, false],
        ),
        (Ranges::between(1, 3), [false, true, true, false, false]),
        (Ranges::between(3, 1), [false; 5]),
    ];
    for (range, expected) in &cases {
        for version in 0u32..5 {
            assert_eq!(range.contains(&version), expected[version as usize]);
            assert_eq!(
                range.complement().contains(&version),
                !expected[version as usize]
            );
        }
    }
    for (a, in_a) in &cases {
        for (b, in_b) in &cases {
            let both = a.intersection(b);
            let either = a.union(b);
            for version in 0usize..5 {
                let v = version as u32;
                assert_eq!(both.contains(&v), in_a[version] && in_b[version]);
                assert_eq!(either.contains(&v), in_a[version] || in_b[version]);
            }
            assert!(both.subset_of(a) && a.subset_of(&either));
            assert_eq!(a.is_disjoint(b), both.subset_of(&Ranges::empty()));
        }
    }
}

#[test]
fn neighbouring_versions_leave_no_gap() {
    let joined = Versions::singleton(1).union(&Versions::singleton(2));
    assert!(Versions::between(1, 3).subset_of(&joined));
    assert!(joined.subset_of(&Versions::between(1, 3)));
    assert!(Versions::strictly_higher_than(1).subset_of(&Versions::higher_than(2)));
    assert!(Versions::strictly_lower_than(0).subset_of(&Versions::empty()));
    assert!(u32::none_between(Some(&1), Some(&2)));
    assert!(!u32::none_between(Some(&1), Some(&3)));
    assert!(u32::none_between(Some(&u32::MAX), None));
}

#[test]
fn terms_speak_of_absent_packages_too() {
    let positive: Term<Versions> = Term::Positive(Ranges::singleton(1));
    let negative: Term<Versions> = positive.negate();
    assert!(positive.contains(&1) && !positive.contains(&2));
    assert!(!negative.contains(&1) && negative.contains(&2));
    assert!(!pubgrub::residual::matches(&positive, None));
    assert!(pubgrub::residual::matches(&negative, None));
    assert!(pubgrub::residual::matches(&positive.union(&negative), None));
    assert!(!pubgrub::residual::matches(
        &positive.intersection(&negative),
        Some(&1)
    ));
    assert!(positive.is_disjoint(&negative));
    assert!(positive.subset_of(&Term::any()) && Term::<Versions>::empty().subset_of(&positive));
}

#[test]
fn package_names_are_compared_by_what_they_say() {
    assert!("menu".same(&"menu"));
    assert!(!"menu".same(&"menus"));
    assert!("menu".to_string().same(&"me nu".replace(' ', "")));
    assert!(!"menu".to_string().same(&"Menu".to_string()));
    assert!(7u32.same(&7) && !7usize.same(&8));
}

#[test]
fn the_last_version_given_for_a_package_is_selected() {
    let selected =
        SelectedDependencies::from_vec(vec![("a", 1u32), ("b", 2), ("a", 3)]);
    assert_eq!(selected.get(&"a"), Some(&3));
    assert_eq!(selected.get(&"b"), Some(&2));
    assert_eq!(selected.get(&"c"), None);
    assert_eq!(selected.iter().len(), 2);
    assert!(selected == SelectedDependencies::from_vec(vec![("b", 2), ("a", 3)]));
    assert!(selected != SelectedDependencies::from_vec(vec![("a", 3)]));
    assert!(selected.clone() == selected);
    let mut pairs = selected.into_vec();
    pairs.sort();
    assert_eq!(pairs, vec![("a", 3), ("b", 2)]);
}

#[test]
fn constraints_keep_their_order() {
    let constraints =
        DependencyConstraints::from_vec(vec![("b", Versions::full()), ("a", Versions::empty())]);
    let names: Vec<&str> = constraints.iter().iter().map(|(name, _)| *name).collect();
    assert_eq!(names, vec!["b", "a"]);
    assert!(DependencyConstraints::<&str, Versions>::default()
        .iter()
        .is_empty());
    assert_eq!(constraints.into_vec().len(), 2);
}

fn decision(package: &'static str, satisfied: bool) -> PreferenceDecision<&'static str, Versions> {
    PreferenceDecision::new(
        PackagePreference::selected(package, Ranges::full()),
        satisfied,
    )
}

fn factor(package: &'static str) -> PreferenceFactor<&'static str, Versions> {
    PreferenceFactor::new(vec![
        PreferenceAlternative::new(vec![decision(package, true)]),
        PreferenceAlternative::new(vec![decision(package, false)]),
    ])
}

#[test]
fn an_assignment_takes_one_alternative_of_every_factor() {
    let product = FactoredPreferenceSolutions::new(
        vec![decision("common", true)],
        vec![factor("a"), factor("b")],
    );
    assert_eq!(product.complete_assignment_count(), Some(4));
    assert!(!product.is_unique());
    assert_eq!(product.common().len(), 1);
    assert_eq!(product.factors().len(), 2);
    assert_eq!(product.factors()[0].alternatives().len(), 2);
    let decisions = product.decisions_for(&[0, 1]).unwrap();
    let stated: Vec<(&str, bool)> = decisions
        .iter()
        .map(|decision| {
            (
                *decision.preference().package(),
                decision.is_satisfied(),
            )
        })
        .collect();
    assert_eq!(stated, vec![("common", true), ("a", true), ("b", false)]);
    assert!(product.decisions_for(&[0]).is_none());
    assert!(product.decisions_for(&[0, 1, 0]).is_none());
    assert!(product.decisions_for(&[0, 2]).is_none());
}

#[test]
fn a_product_without_factors_is_unique() {
    let product =
        FactoredPreferenceSolutions::new(vec![decision("common", true)], Vec::new());
    assert!(product.is_unique());
    assert_eq!(product.complete_assignment_count(), Some(1));
    assert_eq!(product.decisions_for(&[]).unwrap().len(), 1);
}

#[test]
fn a_count_beyond_the_largest_number_is_not_given() {
    let largest = FactoredPreferenceSolutions::new(
        Vec::new(),
        (0..127).map(|_| factor("a")).collect(),
    );
    assert_eq!(largest.complete_assignment_count(), Some(1u128 << 127));
    let beyond = FactoredPreferenceSolutions::new(
        Vec::new(),
        (0..128).map(|_| factor("a")).collect(),
    );
    assert_eq!(beyond.complete_assignment_count(), None);
}

#[test]
fn preferences_describe_package_states() {
    let kept: PackagePreference<&str, Versions> =
        PackagePreference::selected("a", Ranges::singleton(1));
    assert_eq!(*kept.package(), "a");
    assert!(kept.preferred().contains(&1) && !kept.preferred().contains(&2));
    assert!(!pubgrub::residual::matches(kept.preferred(), None));
    let left_out: PackagePreference<&str, Versions> = PackagePreference::absent("a");
    assert!(pubgrub::residual::matches(left_out.preferred(), None));
    assert!(!left_out.preferred().contains(&1));
}
