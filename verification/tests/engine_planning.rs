//! Download, extraction and deployment decisions, and checksums.

use nexus_mod_manager::api::ModFile;
use nexus_mod_manager::config::Config;
use nexus_mod_manager::db::ManifestEntry;
use nexus_mod_manager::engine::{
    check_contained, checked_entry_name, checked_entry_path, download_destination, format_for_extension,
    found_mod_id, progress_file_name, sha256_hex, ArchiveFormat, ConflictResolution,
    DeploymentPaths, DownloadProgress, ExtractionService, FileAction, InstallPlan,
};
use nexus_mod_manager::errors::AppError;

fn config() -> Config {
    Config {
        game_directory: "/g".into(),
        cache_directory: "/c".into(),
        database_path: "/c/db.sqlite".into(),
        nexus_api_key: String::new(),
    }
}

fn mod_file(name: &str) -> ModFile {
    ModFile {
        id: 1,
        name: name.into(),
        size: 10,
        version: "1".into(),
        category: "MAIN".into(),
        mod_id: 42,
        file_path: String::new(),
        file_name: name.into(),
        file_version: "1".into(),
        file_category: "MAIN".into(),
        file_url: "https://example.com/x.zip".into(),
    }
}

#[test]
fn sha256_of_known_inputs() {
    assert_eq!(
        sha256_hex(b"abc"),
        "ba7816bf8f01cfea414140de5dae2223b00361a396177a9cb410ff61f20015ad"
    );
    assert_eq!(
        sha256_hex(b""),
        "e3b0c44298fc1c149afbf4c8996fb92427ae41e4649b934ca495991b7852b855"
    );
}

#[test]
fn download_goes_to_the_cache() {
    assert_eq!(download_destination(&config(), &mod_file("x.zip")), "/c/x.zip");
    assert_eq!(progress_file_name("/c/x.zip"), "x.zip");
    assert_eq!(progress_file_name("/"), "file");
}

#[test]
fn download_progress_counts_chunks() {
    let mut p = DownloadProgress::start(Some(100));
    p.record_chunk(40);
    p.record_chunk(2);
    assert_eq!(p.bytes_downloaded, 42);
    assert_eq!(p.total_bytes, Some(100));
}

#[test]
fn extraction_target_names_stem_and_stamp() {
    let svc = ExtractionService::new(&config());
    assert_eq!(svc.cache_dir, "/c");
    assert_eq!(svc.extraction_target_at("/c/mod.zip", 42), Ok("/c/extract_mod_42".to_string()));
    assert_eq!(svc.extraction_target_at("/c/a.b.7z", -5), Ok("/c/extract_a.b_-5".to_string()));
    assert_eq!(
        svc.extraction_target_at("/", 1),
        Err(AppError::Extraction("bad archive name: \"/\"".into()))
    );
}

#[test]
fn archive_format_ignores_case() {
    let svc = ExtractionService { cache_dir: "/c".into() };
    assert_eq!(svc.archive_format("/d/MOD.ZIP"), Ok(ArchiveFormat::Zip));
    assert_eq!(svc.archive_format("x.7Z"), Ok(ArchiveFormat::SevenZip));
    assert_eq!(svc.archive_format("x.RaR"), Ok(ArchiveFormat::Rar));
    assert_eq!(
        svc.archive_format("x.TAR"),
        Err(AppError::Extraction("unsupported archive format: tar".into()))
    );
    assert_eq!(
        svc.archive_format("noext"),
        Err(AppError::Extraction("unsupported archive format: ".into()))
    );
    assert_eq!(format_for_extension("zip"), Ok(ArchiveFormat::Zip));
}

#[test]
fn entry_names_are_checked() {
    assert_eq!(
        checked_entry_path(None, "../escapee.bin"),
        Err(AppError::ZipSlip("entry ../escapee.bin has invalid name".into()))
    );
    assert_eq!(
        checked_entry_path(Some("/etc/passwd".into()), "/etc/passwd"),
        Err(AppError::ZipSlip("absolute path in zip: \"/etc/passwd\"".into()))
    );
    assert_eq!(checked_entry_path(Some("a/b".into()), "a/b"), Ok("a/b".to_string()));
    assert_eq!(check_contained("/t/a/b", "/t", "x: ", "a/b"), Ok(()));
    assert_eq!(
        check_contained("/etc/x", "/t", "file outside target: ", "/etc/x"),
        Err(AppError::ZipSlip("file outside target: \"/etc/x\"".into()))
    );
}

#[test]
fn deployment_plans_backups_and_honours_resolutions() {
    let d = DeploymentPaths::new(&config());
    assert_eq!(d.backups_dir, "/c/backups");
    assert_eq!(d.target_path("archive/file1.bin"), "/g/archive/file1.bin");
    match d.plan_file(7, "archive/file1.bin", &vec![], true).unwrap() {
        FileAction::Deploy { destination, backup } => {
            assert_eq!(destination, "/g/archive/file1.bin");
            assert_eq!(backup.as_deref(), Some("/c/backups/7_archive_file1.bin"));
        }
        other => panic!("unexpected {other:?}"),
    }
    match d.plan_file(7, "archive/file1.bin", &vec![], false).unwrap() {
        FileAction::Deploy { backup, .. } => assert!(backup.is_none()),
        other => panic!("unexpected {other:?}"),
    }
    let chosen = vec![
        ("/g/a.bin".to_string(), ConflictResolution::Abort),
        ("/g/b.bin".to_string(), ConflictResolution::Skip),
        ("/g/c.bin".to_string(), ConflictResolution::OverwriteNoBackup),
    ];
    assert_eq!(
        d.plan_file(7, "a.bin", &chosen, true).unwrap_err(),
        AppError::Conflict("user aborted on /g/a.bin".into())
    );
    assert!(matches!(d.plan_file(7, "b.bin", &chosen, true), Ok(FileAction::Skip)));
    match d.plan_file(7, "c.bin", &chosen, true).unwrap() {
        FileAction::Deploy { destination, backup } => {
            assert_eq!(destination, "/g/c.bin");
            assert!(backup.is_none());
        }
        other => panic!("unexpected {other:?}"),
    }
}

#[test]
fn cleanup_keeps_protected_paths_and_roots() {
    let d = DeploymentPaths::new(&config());
    let protected = vec!["/g/installed.bin".to_string(), "/c/backups/1_x".to_string()];
    assert!(d.should_remove("/c/junk.txt", &protected));
    assert!(!d.should_remove("/c", &protected));
    assert!(!d.should_remove("/c/backups/", &protected));
    assert!(!d.should_remove("/c/backups/1_x", &protected));
    assert!(!d.should_remove("/c/db.sqlite", &protected));
    assert!(!d.should_remove("/c//db.sqlite", &protected));
}

#[test]
fn install_plan_reports_each_taken_path() {
    let taken = vec![ManifestEntry {
        id: 3,
        mod_id: 11,
        file_path: "/g/archive/file1.bin".into(),
        checksum: None,
        size: Some(9),
        backed_up_original_path: None,
    }];
    let plan = InstallPlan::from_conflicts(12, "/c/extract_b_1".into(), taken);
    assert_eq!(plan.new_mod_id, 12);
    assert_eq!(plan.extracted, "/c/extract_b_1");
    assert_eq!(plan.conflicts.len(), 1);
    assert_eq!(plan.conflicts[0].file_path, "/g/archive/file1.bin");
    assert_eq!(plan.conflicts[0].new_mod_id, 12);
    assert_eq!(plan.conflicts[0].existing_mod_id, 11);
}

#[test]
fn lookups_report_unknown_mods() {
    assert_eq!(found_mod_id(Some(5), "mod not registered", "200"), Ok(5));
    assert_eq!(
        found_mod_id(None, "mod not registered", "200"),
        Err(AppError::Db("mod not registered: 200".into()))
    );
}

#[test]
fn whole_deployment_is_planned_before_anything_moves() {
    let d = DeploymentPaths::new(&config());
    let rels = vec!["a.bin".to_string(), "b.bin".to_string(), "c.bin".to_string()];
    let chosen = vec![("/g/c.bin".to_string(), ConflictResolution::Abort)];
    assert_eq!(
        d.plan_deployment(1, &rels, &chosen, &vec![false, true, false]).unwrap_err(),
        AppError::Conflict("user aborted on /g/c.bin".into())
    );
    let plan = d.plan_deployment(1, &rels[..2].to_vec(), &chosen, &vec![false, true]).unwrap();
    assert_eq!(plan.len(), 2);
    match &plan[1] {
        FileAction::Deploy { destination, backup } => {
            assert_eq!(destination, "/g/b.bin");
            assert_eq!(backup.as_deref(), Some("/c/backups/1_b.bin"));
        }
        other => panic!("unexpected {other:?}"),
    }
}

#[test]
fn messages_quote_paths_as_debug_does() {
    assert_eq!(
        checked_entry_path(Some("/a\"b".into()), "x"),
        Err(AppError::ZipSlip("absolute path in zip: \"/a\\\"b\"".into()))
    );
}

#[test]
fn entry_names_that_leave_the_target_are_refused_before_unpacking() {
    assert_eq!(checked_entry_name("archive/file1.bin"), Ok(()));
    assert_eq!(checked_entry_name("a/./b..c"), Ok(()));
    assert_eq!(
        checked_entry_name("../escapee.bin"),
        Err(AppError::ZipSlip("entry \"../escapee.bin\" leaves the target".into()))
    );
    assert_eq!(
        checked_entry_name("a/../../b"),
        Err(AppError::ZipSlip("entry \"a/../../b\" leaves the target".into()))
    );
    assert_eq!(
        checked_entry_name("/etc/passwd"),
        Err(AppError::ZipSlip("entry \"/etc/passwd\" leaves the target".into()))
    );
}
