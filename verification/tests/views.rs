//! Load order editing and the texts the views show.

use nexus_mod_manager::api::Mod;
use nexus_mod_manager::views::{
    api_key_label, found_status, installed_status, load_order_to_save, move_down, move_up,
    search_row_label, searching_status,
};

fn names(v: &[&str]) -> Vec<String> {
    v.iter().map(|s| s.to_string()).collect()
}

#[test]
fn moving_rows_up_and_down() {
    let mut order = names(&["a", "b", "c"]);
    assert_eq!(move_up(&mut order, 2), 1);
    assert_eq!(order, names(&["a", "c", "b"]));
    assert_eq!(move_up(&mut order, 0), 0);
    assert_eq!(order, names(&["a", "c", "b"]));
    assert_eq!(move_down(&mut order, 0), 1);
    assert_eq!(order, names(&["c", "a", "b"]));
    assert_eq!(move_down(&mut order, 2), 2);
    assert_eq!(order, names(&["c", "a", "b"]));
    assert_eq!(move_down(&mut order, 7), 7);
}

#[test]
fn saving_skips_unknown_mods_but_keeps_positions() {
    let order = names(&["x", "a", "y", "b"]);
    let saved = load_order_to_save(&order, &vec![false, true, false, true]);
    assert_eq!(saved, vec![("a".to_string(), 1), ("b".to_string(), 3)]);
}

#[test]
fn browser_and_status_texts() {
    let m = Mod {
        id: 0,
        name: "Cool".into(),
        version: "1.2".into(),
        description: String::new(),
        category: String::new(),
        nexus_id: "5".into(),
        required_mod_ids: vec![],
        required_versions: Default::default(),
    };
    assert_eq!(search_row_label(&m), "Cool (v1.2)");
    assert_eq!(searching_status("armor"), "Searching for \"armor\"...");
    assert_eq!(found_status(3), "Found 3 mods");
    assert_eq!(installed_status(0), "0 mods installed");
}

#[test]
fn api_key_is_shown_redacted() {
    assert_eq!(api_key_label(""), "<b>API key:</b> not set");
    assert_eq!(
        api_key_label("abcdefghijkl"),
        "<b>API key:</b> abcd***ijkl (set in NEXUS_API_KEY env var)"
    );
}

#[test]
fn moving_up_then_down_restores_the_order() {
    let original = names(&["a", "b", "c", "d"]);
    let mut order = original.clone();
    let selected = move_up(&mut order, 2);
    assert_eq!(move_down(&mut order, selected), 2);
    assert_eq!(order, original);
}
