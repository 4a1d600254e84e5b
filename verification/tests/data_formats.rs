//! Status texts, numbers, redaction, URLs and rate limits.

use nexus_mod_manager::api::{
    request_step, retry_after_secs, urlencoding, Mod, ModDetails, ModSearchResult, NexusClient,
    NxmLink, RateLimit, RequestOutcome, RequestStep,
};
use nexus_mod_manager::api::ModFile;
use nexus_mod_manager::db::{manifest_entry_from_file, sql_placeholders, InstallStatus, NewManifestEntry};
use nexus_mod_manager::errors::AppError;
use nexus_mod_manager::load_order::{topo_sort, RequirementGraph};
use nexus_mod_manager::logging::redact_key;
use nexus_mod_manager::text::{format_int, parse_int};

#[test]
fn install_status_round_trips() {
    for s in [InstallStatus::Enabled, InstallStatus::Disabled, InstallStatus::PendingRequirements] {
        assert_eq!(InstallStatus::parse(s.as_str()), Ok(s));
    }
    assert_eq!(InstallStatus::PendingRequirements.as_str(), "pending_requirements");
    assert_eq!(
        InstallStatus::parse("broken"),
        Err(AppError::Db("unknown install status: broken".into()))
    );
}

#[test]
fn redact_key_keeps_four_on_each_side() {
    assert_eq!(redact_key("abcdefghijkl"), "abcd***ijkl");
    assert_eq!(redact_key("12345678"), "***REDACTED***");
    assert_eq!(redact_key(""), "***REDACTED***");
    assert_eq!(redact_key("a\u{e9}\u{e9}\u{e9}\u{e9}"), "a\u{e9}***\u{e9}\u{e9}");
}

#[test]
fn numbers_format_and_parse() {
    assert_eq!(format_int(-42), "-42");
    assert_eq!(format_int(0), "0");
    assert_eq!(format_int(i64::MIN), i64::MIN.to_string());
    assert_eq!(parse_int("123", false, 0, 1000), Some(123));
    assert_eq!(parse_int("-7", true, -10, 10), Some(-7));
    assert_eq!(parse_int("+7", false, 0, 10), Some(7));
    assert_eq!(parse_int("2001", false, 0, 1000), None);
    assert_eq!(parse_int("12a", false, 0, 1000), None);
}

#[test]
fn urlencoding_escapes_reserved_bytes() {
    assert_eq!(urlencoding("a b&c~"), "a%20b%26c~");
    assert_eq!(urlencoding("é"), "%C3%A9");
}

#[test]
fn endpoint_paths() {
    let c = NexusClient::new("key".into());
    assert_eq!(c.game_id, 3333);
    assert_eq!(c.search_path("a b"), "/games/3333/mods/search.json?term=a%20b");
    assert_eq!(c.url_for("/x"), "https://api.nexusmods.com/v1/x");
    let c = c.with_game_id(1);
    assert_eq!(c.game_id, 1);
    let link = NxmLink {
        game_domain: "cyberpunk2077".into(),
        mod_id: 5,
        file_id: 6,
        key: Some("K".into()),
        expires: Some(9),
    };
    let p = c.download_path(5, 6, Some(&link));
    assert!(p.contains("key=K"), "{p}");
    assert!(p.contains("expires=9"), "{p}");
}

#[test]
fn rate_limit_headers_update_only_numbers() {
    let mut r = RateLimit::default();
    r.apply_headers(Some("99"), Some("x"), None, Some("2500"));
    assert_eq!(r.hourly_remaining, Some(99));
    assert_eq!(r.daily_remaining, None);
    assert_eq!(r.hourly_limit, None);
    assert_eq!(r.daily_limit, Some(2500));
}

#[test]
fn retries_and_waits() {
    assert!(matches!(request_step(0, 3, RequestOutcome::TooManyRequests), RequestStep::Retry));
    assert!(matches!(request_step(3, 3, RequestOutcome::TooManyRequests), RequestStep::ReturnResponse));
    assert!(matches!(request_step(3, 3, RequestOutcome::TransportError), RequestStep::ReturnError));
    assert!(matches!(request_step(0, 3, RequestOutcome::Answered), RequestStep::ReturnResponse));
    assert_eq!(retry_after_secs(Some("7")), 7);
    assert_eq!(retry_after_secs(Some("soon")), 2);
    assert_eq!(retry_after_secs(None), 2);
}

#[test]
fn mods_from_api_answers() {
    let m = Mod::from_search_result(ModSearchResult {
        mod_id: 42,
        name: "N".into(),
        version: None,
        summary: Some("S".into()),
        category_id: Some(3),
    });
    assert_eq!(m.nexus_id, "42");
    assert_eq!(m.version, "");
    assert_eq!(m.description, "S");
    assert_eq!(m.category, "3");
    let d = Mod::from_details(ModDetails {
        id: 7,
        name: "D".into(),
        version: Some("1.2".into()),
        description: None,
        category_id: None,
        mod_requirements: vec!["8".into()],
    });
    assert_eq!(d.nexus_id, "7");
    assert_eq!(d.required_mod_ids, vec!["8".to_string()]);
}

#[test]
fn placeholders_for_queries() {
    assert_eq!(sql_placeholders(3), "?,?,?");
    assert_eq!(sql_placeholders(0), "");
}

#[test]
fn topo_sort_counts_a_repeated_requirement_once() {
    let mut g = RequirementGraph::new();
    g.insert("A".into(), vec!["B".into(), "B".into()]);
    g.insert("B".into(), vec![]);
    assert_eq!(topo_sort(&g), Ok(vec!["B".to_string(), "A".to_string()]));
}

#[test]
fn topo_sort_orders_requirements_first_and_rejects_cycles() {
    let mut g = RequirementGraph::new();
    g.insert("A".into(), vec!["B".into()]);
    g.insert("B".into(), vec![]);
    assert_eq!(topo_sort(&g), Ok(vec!["B".to_string(), "A".to_string()]));
    g.insert("B".into(), vec!["A".into()]);
    assert_eq!(
        topo_sort(&g),
        Err(AppError::CircularDependency("cycle in requirements".into()))
    );
}

#[test]
fn manifest_rows_for_files() {
    let file = ModFile {
        id: 1,
        name: "main".into(),
        size: 1234,
        version: "1".into(),
        category: "MAIN".into(),
        mod_id: 9,
        file_path: "/g/a.bin".into(),
        file_name: "a.bin".into(),
        file_version: "1".into(),
        file_category: "MAIN".into(),
        file_url: String::new(),
    };
    let e = manifest_entry_from_file(5, &file);
    assert_eq!(e.id, 0);
    assert_eq!(e.mod_id, 5);
    assert_eq!(e.file_path, "/g/a.bin");
    assert_eq!(e.size, Some(1234));
    assert!(e.checksum.is_none());
    let n = NewManifestEntry::from_entry(&e);
    assert_eq!(n.file_path, "/g/a.bin");
    assert_eq!(n.size, Some(1234));
    assert!(n.backed_up_original_path.is_none());
}
