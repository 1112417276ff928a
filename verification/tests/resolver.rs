use poetry_resolver::version::{PEP440Version, Prerelease};
use poetry_resolver::{
    parse_dependency, resolve, solve, OfflineProvider, PoetryProvider, ResolveError, RootPackage,
};

fn v(major: u32, minor: u32, patch: u32) -> PEP440Version {
    PEP440Version::new(major, minor, patch)
}

fn dep(line: &str) -> (String, poetry_resolver::ranges::VersionRange) {
    parse_dependency(line).unwrap()
}

fn lookup<'a>(solution: &'a [(String, String)], name: &str) -> &'a str {
    &solution
        .iter()
        .find(|(p, _)| p == name)
        .unwrap_or_else(|| panic!("{} not resolved", name))
        .1
}

#[test]
fn resolves_a_fixed_offline_graph() {
    // One package with two versions: the newest acceptable one is taken.
    let mut store = OfflineProvider::new();
    store.add_package("B".to_string(), vec![v(1, 0, 0), v(0, 1, 0)]);
    store.add_dependencies(&"B".to_string(), v(1, 0, 0), Some(vec![]));
    store.add_dependencies(&"B".to_string(), v(0, 1, 0), Some(vec![]));
    let solution = resolve("A", "1.0.0", vec![("B", ">=1.0")], vec![], store).unwrap();
    assert_eq!(lookup(&solution, "A"), "1.0.0");
    assert_eq!(lookup(&solution, "B"), "1.0.0");
    assert_eq!(solution.len(), 2);
}

#[test]
fn resolves_a_transitive_chain() {
    let mut store = OfflineProvider::new();
    store.add_package("B".to_string(), vec![v(2, 0, 0), v(1, 0, 0)]);
    store.add_package("C".to_string(), vec![v(5, 0, 0), v(4, 0, 0)]);
    store.add_dependencies(&"B".to_string(), v(2, 0, 0), Some(vec![dep("C (<5.0.0)")]));
    store.add_dependencies(&"B".to_string(), v(1, 0, 0), Some(vec![]));
    store.add_dependencies(&"C".to_string(), v(5, 0, 0), Some(vec![]));
    store.add_dependencies(&"C".to_string(), v(4, 0, 0), Some(vec![]));
    let solution = resolve("root", "0.1.0", vec![("B", ">=2.0")], vec![], store).unwrap();
    assert_eq!(lookup(&solution, "B"), "2.0.0");
    assert_eq!(lookup(&solution, "C"), "4.0.0");
}

#[test]
fn reports_unsatisfiable_graphs() {
    // A needs B==1.0 and C==1.0, but C needs B==2.0.
    let mut store = OfflineProvider::new();
    store.add_package("B".to_string(), vec![v(2, 0, 0), v(1, 0, 0)]);
    store.add_package("C".to_string(), vec![v(1, 0, 0)]);
    store.add_dependencies(&"B".to_string(), v(1, 0, 0), Some(vec![]));
    store.add_dependencies(&"B".to_string(), v(2, 0, 0), Some(vec![]));
    store.add_dependencies(&"C".to_string(), v(1, 0, 0), Some(vec![dep("B (==2.0.0)")]));
    let outcome = resolve(
        "A",
        "1.0.0",
        vec![("B", "==1.0.0"), ("C", "==1.0.0")],
        vec![],
        store,
    );
    assert!(matches!(outcome, Err(ResolveError::NoSolution(_))));
}

#[test]
fn solve_reports_soundness_inputs() {
    // Driving the solver directly over a pinned root.
    let mut provider = PoetryProvider::new(RootPackage {
        package: "app".to_string(),
        version: v(0, 1, 0),
        dependencies: vec![dep("lib (>=1.0.0,<2)")],
    });
    provider
        .remote
        .add_package("lib".to_string(), vec![v(2, 1, 0), v(1, 4, 0), v(1, 0, 0)]);
    provider
        .remote
        .add_dependencies(&"lib".to_string(), v(2, 1, 0), Some(vec![]));
    provider
        .remote
        .add_dependencies(&"lib".to_string(), v(1, 4, 0), Some(vec![]));
    provider
        .remote
        .add_dependencies(&"lib".to_string(), v(1, 0, 0), Some(vec![]));
    let solution = solve(&provider).unwrap();
    let lib = solution.iter().find(|(p, _)| p == "lib").unwrap();
    assert_eq!(lib.1, v(1, 4, 0));
    // The declared range indeed contains the resolved version.
    let (_, range) = dep("lib (>=1.0.0,<2)");
    assert!(range.contains(&lib.1));
}

#[test]
fn root_version_with_pre_release() {
    let store = OfflineProvider::new();
    let solution = resolve("poetry", "1.2.0a0", vec![], vec![], store).unwrap();
    assert_eq!(solution, vec![("poetry".to_string(), "1.2.0a0".to_string())]);
}

#[test]
fn rejects_order_equivalent_offered_versions() {
    // The precedence order cannot tell a final release from its
    // pre-release, so a store offering both is refused outright.
    let mut store = OfflineProvider::new();
    store.add_package(
        "B".to_string(),
        vec![
            v(1, 0, 0),
            PEP440Version {
                pre: Some((Prerelease::Alpha, 0)),
                ..v(1, 0, 0)
            },
        ],
    );
    store.add_dependencies(&"B".to_string(), v(1, 0, 0), Some(vec![]));
    let outcome = resolve("A", "1.0.0", vec![("B", ">=1.0")], vec![], store);
    assert!(matches!(outcome, Err(ResolveError::Inconsistent)));
}

#[test]
fn rejects_a_bad_root_version() {
    let store = OfflineProvider::new();
    let outcome = resolve("A", "not-a-version", vec![], vec![], store);
    assert!(matches!(outcome, Err(ResolveError::InvalidVersion(_))));
}

#[test]
fn rejects_a_bad_requirement_line() {
    let store = OfflineProvider::new();
    let outcome = resolve("A", "1.0.0", vec![("B", "1.0) junk")], vec![], store);
    assert!(matches!(outcome, Err(ResolveError::InvalidRequirement(_))));
}

#[test]
fn reports_missing_version_lists() {
    let store = OfflineProvider::new();
    let outcome = resolve("A", "1.0.0", vec![("B", ">=1.0")], vec![], store);
    match outcome {
        Err(ResolveError::MissingVersions(name)) => assert_eq!(name, "B"),
        other => panic!("expected missing versions, got {:?}", other),
    }
}

#[test]
fn reports_missing_dependency_entries() {
    let mut store = OfflineProvider::new();
    store.add_package("B".to_string(), vec![v(1, 0, 0)]);
    let outcome = resolve("A", "1.0.0", vec![("B", ">=1.0")], vec![], store);
    match outcome {
        Err(ResolveError::MissingDependencies(name, version)) => {
            assert_eq!(name, "B");
            assert_eq!(version, v(1, 0, 0));
        }
        other => panic!("expected missing dependencies, got {:?}", other),
    }
}

#[test]
fn reports_self_dependencies() {
    let mut store = OfflineProvider::new();
    store.add_package("B".to_string(), vec![v(1, 0, 0)]);
    store.add_dependencies(&"B".to_string(), v(1, 0, 0), Some(vec![dep("B (>=1.0)")]));
    let outcome = resolve("A", "1.0.0", vec![("B", ">=1.0")], vec![], store);
    assert!(matches!(outcome, Err(ResolveError::SelfDependency(_, _))));
}

#[test]
fn reports_dependencies_on_the_empty_set() {
    let mut store = OfflineProvider::new();
    store.add_package("B".to_string(), vec![v(1, 0, 0)]);
    store.add_dependencies(&"B".to_string(), v(1, 0, 0), Some(vec![dep("C (<0.0.0)")]));
    let outcome = resolve("A", "1.0.0", vec![("B", ">=1.0")], vec![], store);
    assert!(matches!(outcome, Err(ResolveError::DependencyOnEmptySet(_, _, _))));
}

#[test]
fn unavailable_dependencies_force_backtracking() {
    // The newest version's dependency list is marked unavailable, so the
    // older version is taken instead.
    let mut store = OfflineProvider::new();
    store.add_package("B".to_string(), vec![v(2, 0, 0), v(1, 0, 0)]);
    store.add_dependencies(&"B".to_string(), v(2, 0, 0), None);
    store.add_dependencies(&"B".to_string(), v(1, 0, 0), Some(vec![]));
    let solution = resolve("A", "1.0.0", vec![("B", ">=1.0")], vec![], store).unwrap();
    assert_eq!(lookup(&solution, "B"), "1.0.0");
}

#[test]
fn excluded_requirements_drop_versions() {
    let mut store = OfflineProvider::new();
    store.add_package("B".to_string(), vec![v(2, 0, 0), v(1, 5, 0), v(1, 0, 0)]);
    store.add_dependencies(&"B".to_string(), v(2, 0, 0), Some(vec![]));
    store.add_dependencies(&"B".to_string(), v(1, 5, 0), Some(vec![]));
    store.add_dependencies(&"B".to_string(), v(1, 0, 0), Some(vec![]));
    let solution = resolve(
        "A",
        "1.0.0",
        vec![("B", ">=1.0,<2"), ("B", "!=1.5.0")],
        vec![],
        store,
    )
    .unwrap();
    assert_eq!(lookup(&solution, "B"), "1.0.0");
}

#[test]
fn dev_requirements_constrain_too() {
    let mut store = OfflineProvider::new();
    store.add_package("B".to_string(), vec![v(3, 0, 0), v(2, 0, 0)]);
    store.add_dependencies(&"B".to_string(), v(3, 0, 0), Some(vec![]));
    store.add_dependencies(&"B".to_string(), v(2, 0, 0), Some(vec![]));
    let solution = resolve("A", "1.0.0", vec![], vec![("B", "<3.0.0")], store).unwrap();
    assert_eq!(lookup(&solution, "B"), "2.0.0");
}
