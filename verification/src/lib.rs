//! Version solving by conflict-driven search over package version sets.

pub mod ascent;
pub mod attempts;
mod choice;
pub mod course;
pub mod error;
pub mod factored;
pub mod finite;
pub mod front;
pub mod laws;
pub mod machine;
pub mod maximal;
pub mod meaning;
pub mod observer;
pub mod offline;
pub mod ordering;
pub mod package;
pub mod path;
pub mod preference;
pub mod polls;
pub mod priority;
pub mod provider;
pub mod ranges;
pub mod version;
pub mod version_set;

pub mod problem;
pub mod progress;
pub mod promises;
pub mod report;
pub mod residual;
pub mod run;
pub mod search;
pub mod selected;
pub mod solver;
mod state;
pub mod statistics;
pub mod term;
pub mod trace;
pub mod tracker;

pub use error::PubGrubError;
pub use observer::{MaximalityProbeResult, SolverEvent, SolverObserver};
pub use offline::OfflineDependencyProvider;
pub use ordering::VersionOrdering;
pub use package::Package;
pub use preference::{
    FactoredPreferenceSolutions, PackagePreference, PreferenceAlternative, PreferenceDecision,
    PreferenceFactor,
};
pub use provider::{
    Dependencies, DependencyConstraints, DependencyProvider, IncompatibilityConstraint,
    IncompatibilityConstraintTerm, IncompatibilityConstraints,
};
pub use ranges::Ranges;

pub use report::{Derived, DerivationTree, External};
pub use selected::{MaximalSolutions, SelectedDependencies};
pub use solver::{
    resolve, resolve_factored_preference_solutions,
    resolve_factored_preference_solutions_with_observer, resolve_maximal_solutions,
    resolve_maximal_solutions_for_preference_decisions,
    resolve_maximal_solutions_for_preference_decisions_with_observer,
    resolve_maximal_solutions_with_observer, resolve_minimal_change_solutions,
    resolve_minimal_change_solutions_with_observer, resolve_with_observer,
};
pub use statistics::PackageResolutionStatistics;
pub use term::Term;
pub use version::Version;
pub use version_set::VersionSet;
