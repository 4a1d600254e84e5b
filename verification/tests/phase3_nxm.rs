//! `nxm://` link parsing.

use nexus_mod_manager::api::NexusClient;
use nexus_mod_manager::errors::AppError;

#[test]
fn parse_nxm_extracts_mod_file_and_key() {
    let uri = "nxm://cyberpunk2077/mods/42/files/1234?key=ABCD&expires=1700000000";
    let parsed = NexusClient::parse_nxm(uri).unwrap();
    assert_eq!(parsed.game_domain, "cyberpunk2077");
    assert_eq!(parsed.mod_id, 42);
    assert_eq!(parsed.file_id, 1234);
    assert_eq!(parsed.key.as_deref(), Some("ABCD"));
    assert_eq!(parsed.expires, Some(1700000000));
}

#[test]
fn parse_nxm_rejects_non_nxm_uri() {
    let result = NexusClient::parse_nxm("https://example.com/mods/42");
    assert!(result.is_err());
}

#[test]
fn parse_nxm_rejects_malformed_path() {
    let result = NexusClient::parse_nxm("nxm://cyberpunk2077/notmods/42");
    assert!(result.is_err());
}

#[test]
fn parse_nxm_accepts_missing_query_params() {
    let uri = "nxm://cyberpunk2077/mods/7/files/8";
    let parsed = NexusClient::parse_nxm(uri).unwrap();
    assert_eq!(parsed.mod_id, 7);
    assert_eq!(parsed.file_id, 8);
    assert!(parsed.key.is_none());
    assert!(parsed.expires.is_none());
}

#[test]
fn parse_nxm_rejects_non_numeric_ids() {
    let result = NexusClient::parse_nxm("nxm://cyberpunk2077/mods/abc/files/8");
    assert!(matches!(result, Err(AppError::Api(_))));
}

#[test]
fn parse_nxm_rejects_unparsable_uri() {
    let result = NexusClient::parse_nxm("not a uri at all");
    assert!(matches!(result, Err(AppError::Api(_))));
}

#[test]
fn parse_nxm_keeps_last_repeated_query_value() {
    let parsed = NexusClient::parse_nxm("nxm://cyberpunk2077/mods/1/files/2?key=A&key=B").unwrap();
    assert_eq!(parsed.key.as_deref(), Some("B"));
}

#[test]
fn parse_nxm_reads_back_a_formatted_link() {
    for (g, m, f, k, e) in [
        ("cyberpunk2077", 42, 1234, "ABCD", 1700000000i64),
        ("skyrim", -3, 0, "k9", -17),
        ("x", i32::MAX, i32::MIN, "Z", i64::MIN),
    ] {
        let uri = format!("nxm://{g}/mods/{m}/files/{f}?key={k}&expires={e}");
        let link = NexusClient::parse_nxm(&uri).unwrap();
        assert_eq!(link.game_domain, g);
        assert_eq!(link.mod_id, m);
        assert_eq!(link.file_id, f);
        assert_eq!(link.key.as_deref(), Some(k));
        assert_eq!(link.expires, Some(e));
    }
}
