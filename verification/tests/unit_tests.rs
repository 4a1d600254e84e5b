//! The dependency information record.

use nexus_mod_manager::dependency::DependencyInfo;

#[test]
fn unit_tests_test_dependency_info_struct() {
    let info = DependencyInfo {
        mod_id: "test_mod".to_string(),
        required_mods: vec!["req1".to_string(), "req2".to_string()],
        missing_mods: vec![],
    };

    assert_eq!(info.mod_id, "test_mod");
    assert_eq!(info.required_mods.len(), 2);
    assert_eq!(info.missing_mods.len(), 0);

    println!("DependencyInfo struct test passed");
}

#[test]
fn integration_tests_test_dependency_info_struct() {
    let info = DependencyInfo {
        mod_id: "test_mod".to_string(),
        required_mods: vec!["req1".to_string(), "req2".to_string()],
        missing_mods: vec![],
    };

    assert_eq!(info.mod_id, "test_mod");
    assert_eq!(info.required_mods.len(), 2);
    assert_eq!(info.missing_mods.len(), 0);

    println!("DependencyInfo struct test passed");
}
