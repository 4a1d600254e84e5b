//! Requirement resolution and load ordering over a database snapshot.

use nexus_mod_manager::db::InstallStatus;
use nexus_mod_manager::dependency::{DependencySnapshot, ModRecord};
use nexus_mod_manager::errors::AppError;

fn record(id: &str, deps: &[&str], installed: bool) -> ModRecord {
    ModRecord {
        nexus_id: id.to_string(),
        required_mod_ids: deps.iter().map(|s| s.to_string()).collect(),
        installed,
    }
}

fn snapshot_with(records: Vec<ModRecord>) -> DependencySnapshot {
    let mut snap = DependencySnapshot::new();
    for r in records {
        snap.insert(r);
    }
    snap
}

#[test]
fn missing_requirements_lists_uninstalled_deps() {
    let svc = snapshot_with(vec![record("A", &["B", "C"], false)]);
    let missing = svc.missing_requirements(&"A".to_string()).unwrap();
    assert_eq!(missing.len(), 2);
    assert!(missing.contains(&"B".to_string()));
    assert!(missing.contains(&"C".to_string()));
}

#[test]
fn missing_requirements_excludes_installed_deps() {
    let svc = snapshot_with(vec![record("A", &["B"], false), record("B", &[], true)]);
    let missing = svc.missing_requirements(&"A".to_string()).unwrap();
    assert!(missing.is_empty(), "expected no missing deps; got {missing:?}");
}

#[test]
fn circular_dependency_is_detected() {
    let svc = snapshot_with(vec![record("A", &["B"], false), record("B", &["A"], false)]);
    let result = svc.check_dependencies(&"A".to_string());
    assert!(result.is_err(), "expected circular dep error");
    match result {
        Err(AppError::CircularDependency(_)) => {}
        other => panic!("expected CircularDependency, got {other:?}"),
    }
}

#[test]
fn load_order_toposorts_by_dependencies() {
    let svc = snapshot_with(vec![
        record("A", &["B"], false),
        record("B", &["C"], false),
        record("C", &[], false),
    ]);
    let order = svc
        .assign_load_order(vec!["A".into(), "B".into(), "C".into()])
        .unwrap();
    let pos = |id: &str| order.iter().position(|(x, _)| x == id).unwrap();
    assert!(pos("C") < pos("B"));
    assert!(pos("B") < pos("A"));
}

#[test]
fn load_order_numbers_positions_from_zero() {
    let svc = snapshot_with(vec![record("A", &["B"], false), record("B", &[], false)]);
    let order = svc.assign_load_order(vec!["A".into(), "B".into()]).unwrap();
    assert_eq!(order, vec![("B".to_string(), 0), ("A".to_string(), 1)]);
}

fn names_a_mod_on_the_cycle(r: Result<Vec<String>, AppError>, cycle: &[&str]) {
    match r {
        Err(AppError::CircularDependency(name)) => assert!(cycle.contains(&name.as_str()), "{name}"),
        other => panic!("expected CircularDependency, got {other:?}"),
    }
}

#[test]
fn circular_error_names_a_mod_on_the_cycle() {
    let svc = snapshot_with(vec![
        record("A", &["B"], false),
        record("B", &["C"], false),
        record("C", &["B"], false),
    ]);
    names_a_mod_on_the_cycle(svc.missing_requirements(&"A".to_string()), &["B", "C"]);
}

#[test]
fn shared_requirement_is_not_a_cycle() {
    let svc = snapshot_with(vec![
        record("A", &["B", "C"], false),
        record("B", &["D"], false),
        record("C", &["D"], false),
    ]);
    let mut all = svc.collect_requirements(&"A".to_string()).unwrap();
    all.sort();
    assert_eq!(all, vec!["B".to_string(), "C".to_string(), "D".to_string()]);
    let order = svc
        .resolve_dependency_order(vec!["A".into(), "B".into(), "C".into(), "D".into()])
        .unwrap();
    let pos = |id: &str| order.iter().position(|x| x == id).unwrap();
    assert!(pos("D") < pos("B") && pos("D") < pos("C"));
    assert!(pos("B") < pos("A") && pos("C") < pos("A"));
    assert_eq!(svc.check_circular_dependencies(&vec!["A".to_string()]), Ok(()));
}

#[test]
fn repeated_requirement_is_not_a_cycle() {
    let svc = snapshot_with(vec![record("A", &["B", "B"], false), record("B", &[], false)]);
    assert_eq!(svc.missing_requirements(&"A".to_string()), Ok(vec!["B".to_string()]));
    assert_eq!(
        svc.assign_load_order(vec!["A".into(), "B".into()]),
        Ok(vec![("B".to_string(), 0), ("A".to_string(), 1)])
    );
    assert_eq!(svc.update_mod_status(&"A".to_string()), Ok(InstallStatus::PendingRequirements));
}

#[test]
fn transitive_requirements_are_collected() {
    let svc = snapshot_with(vec![record("A", &["B"], false), record("B", &["C"], true)]);
    let mut all = svc.collect_requirements(&"A".to_string()).unwrap();
    all.sort();
    assert_eq!(all, vec!["B".to_string(), "C".to_string()]);
    let missing = svc.missing_requirements(&"A".to_string()).unwrap();
    assert_eq!(missing, vec!["C".to_string()]);
}

#[test]
fn unknown_mod_has_no_requirements() {
    let svc = snapshot_with(vec![]);
    assert_eq!(svc.missing_requirements(&"Z".to_string()), Ok(vec![]));
}

#[test]
fn check_circular_dependencies_passes_then_ordering_succeeds() {
    let svc = snapshot_with(vec![record("A", &["B"], false), record("B", &[], false)]);
    let ids = vec!["A".to_string(), "B".to_string()];
    assert_eq!(svc.check_circular_dependencies(&ids), Ok(()));
    assert!(svc.resolve_dependency_order(ids).is_ok());
}

#[test]
fn check_circular_dependencies_fails_on_cycle() {
    let svc = snapshot_with(vec![record("A", &["B"], false), record("B", &["A"], false)]);
    let ids = vec!["B".to_string()];
    match svc.check_circular_dependencies(&ids) {
        Err(AppError::CircularDependency(name)) => assert!(name == "A" || name == "B"),
        other => panic!("expected CircularDependency, got {other:?}"),
    }
    assert!(svc.resolve_dependency_order(vec!["A".to_string(), "B".to_string()]).is_err());
}

#[test]
fn requirements_outside_the_list_are_ignored_by_ordering() {
    let svc = snapshot_with(vec![record("A", &["X"], false), record("B", &["A"], false)]);
    let order = svc.resolve_dependency_order(vec!["B".into(), "A".into()]).unwrap();
    assert_eq!(order, vec!["A".to_string(), "B".to_string()]);
}

#[test]
fn update_status_follows_missing_requirements() {
    let svc = snapshot_with(vec![
        record("A", &["B"], false),
        record("B", &[], true),
        record("C", &["D"], false),
    ]);
    assert_eq!(svc.update_mod_status(&"A".to_string()), Ok(InstallStatus::Enabled));
    assert_eq!(
        svc.update_mod_status(&"C".to_string()),
        Ok(InstallStatus::PendingRequirements)
    );
    assert_eq!(svc.install_missing_dependencies(&"A".to_string()), Ok(None));
    assert_eq!(
        svc.install_missing_dependencies(&"C".to_string()),
        Ok(Some(InstallStatus::PendingRequirements))
    );
}

#[test]
fn dependency_info_lists_stored_and_missing() {
    let svc = snapshot_with(vec![record("A", &["B", "C"], false), record("B", &[], true)]);
    let info = svc.get_dependency_info(&"A".to_string()).unwrap();
    assert_eq!(info.mod_id, "A");
    assert_eq!(info.required_mods, vec!["B".to_string(), "C".to_string()]);
    assert_eq!(info.missing_mods, vec!["C".to_string()]);
    let unknown = svc.get_dependency_info(&"Q".to_string()).unwrap();
    assert!(unknown.required_mods.is_empty());
    assert!(unknown.missing_mods.is_empty());
}

#[test]
fn insert_replaces_known_mod() {
    let mut svc = snapshot_with(vec![record("A", &["B"], false)]);
    svc.insert(record("A", &[], false));
    assert_eq!(svc.missing_requirements(&"A".to_string()), Ok(vec![]));
    assert!(!svc.is_mod_installed(&"A".to_string()));
    svc.insert(record("A", &[], true));
    assert!(svc.is_mod_installed(&"A".to_string()));
}

#[test]
fn cycle_error_names_the_mod_that_requires_itself() {
    let svc = snapshot_with(vec![record("A", &["B"], false), record("B", &["A"], false)]);
    assert_eq!(
        svc.check_dependencies(&"A".to_string()),
        Err(AppError::CircularDependency("A".to_string()))
    );
    assert_eq!(
        svc.missing_requirements(&"B".to_string()),
        Err(AppError::CircularDependency("B".to_string()))
    );
}
