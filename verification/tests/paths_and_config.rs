//! Path text, configuration assembly and path validation.

use nexus_mod_manager::config::{
    api_key_from_env, config_file_paths, not_writable, xdg_path, Config, PathCheck, Validation,
};
use nexus_mod_manager::errors::AppError;
use nexus_mod_manager::paths::{
    components, extension, file_name, file_stem, join_path, path_has_prefix, path_is_absolute,
    paths_equal, split_path,
};

#[test]
fn join_follows_pathbuf_push() {
    assert_eq!(join_path("/a", "b"), "/a/b");
    assert_eq!(join_path("/a/", "b"), "/a/b");
    assert_eq!(join_path("/a", "/b"), "/b");
    assert_eq!(join_path("", "b"), "b");
    assert_eq!(join_path("a", ""), "a/");
}

#[test]
fn join_matches_std() {
    for (base, rel) in [("/x/y", "z/w"), ("rel", "x"), ("/", "etc"), ("/a//", "b/"), ("", "")] {
        let expected = std::path::Path::new(base).join(rel);
        assert_eq!(join_path(base, rel), expected.to_str().unwrap());
    }
}

#[test]
fn components_drop_dots_and_repeated_separators() {
    assert_eq!(components("/a/./b//c/"), vec!["/", "a", "b", "c"]);
    assert_eq!(components("./a"), vec![".", "a"]);
    assert_eq!(components("a/.."), vec!["a", ".."]);
    assert_eq!(split_path("//a/b"), vec!["a", "b"]);
}

#[test]
fn path_equality_and_prefix_go_by_components() {
    assert!(paths_equal("/a/b/", "/a//b"));
    assert!(paths_equal("/a/./b", "/a/b"));
    assert!(!paths_equal("/a/b", "a/b"));
    assert!(path_has_prefix("/t/a/b", "/t"));
    assert!(path_has_prefix("/t", "/t/"));
    assert!(!path_has_prefix("/tx/a", "/t"));
    assert!(!path_has_prefix("/t", "/t/a"));
}

#[test]
fn file_name_stem_and_extension() {
    assert_eq!(file_name("/x/mod.tar.gz").as_deref(), Some("mod.tar.gz"));
    assert_eq!(file_stem("/x/mod.tar.gz").as_deref(), Some("mod.tar"));
    assert_eq!(extension("/x/mod.tar.gz").as_deref(), Some("gz"));
    assert_eq!(file_stem("/x/.bashrc").as_deref(), Some(".bashrc"));
    assert_eq!(extension("/x/.bashrc"), None);
    assert_eq!(extension("/x/name."), Some(String::new()));
    assert_eq!(file_name("foo/.."), None);
    assert_eq!(file_name("/"), None);
    assert_eq!(file_name("foo.txt/."), Some("foo.txt".to_string()));
    assert!(path_is_absolute("/a"));
    assert!(!path_is_absolute("a/b"));
}

#[test]
fn file_parts_match_std() {
    for p in ["/x/mod.tar.gz", "a/.hidden", "b/c.", "..", "/", "x/..d", "plain", "dir/"] {
        let path = std::path::Path::new(p);
        assert_eq!(file_name(p).as_deref(), path.file_name().and_then(|s| s.to_str()), "{p}");
        assert_eq!(file_stem(p).as_deref(), path.file_stem().and_then(|s| s.to_str()), "{p}");
        assert_eq!(extension(p).as_deref(), path.extension().and_then(|s| s.to_str()), "{p}");
    }
}

#[test]
fn xdg_path_prefers_the_variable_then_home() {
    assert_eq!(
        xdg_path(Some("/x".into()), Some("/h".into()), "XDG_CONFIG_HOME", ".config"),
        Ok("/x".to_string())
    );
    assert_eq!(
        xdg_path(Some(String::new()), Some("/h".into()), "XDG_CONFIG_HOME", ".config"),
        Ok("/h/.config".to_string())
    );
    assert_eq!(
        xdg_path(None, None, "XDG_CACHE_HOME", ".cache"),
        Err(AppError::Config("XDG_CACHE_HOME not set and HOME not set either".into()))
    );
}

#[test]
fn config_file_lives_under_cp2077_manager() {
    let (dir, file) = config_file_paths("/h/.config");
    assert_eq!(dir, "/h/.config/cp2077-manager");
    assert_eq!(file, "/h/.config/cp2077-manager/config.toml");
}

#[test]
fn api_key_must_be_set_and_not_blank() {
    assert_eq!(api_key_from_env(None), Err(AppError::MissingApiKey));
    assert_eq!(api_key_from_env(Some(" \t\n".into())), Err(AppError::MissingApiKey));
    assert_eq!(api_key_from_env(Some("k3y".into())), Ok("k3y".to_string()));
}

#[test]
fn config_new_uses_defaults_and_sets_the_key() {
    let c = Config::new(None, "/h/.cache", Some("abc123key".into())).unwrap();
    assert_eq!(c.game_directory, "/tmp/cp2077-game");
    assert_eq!(c.cache_directory, "/h/.cache/cp2077-manager");
    assert_eq!(c.database_path, "/h/.cache/cp2077-manager/db.sqlite");
    assert_eq!(c.nexus_api_key, "abc123key");

    let stored = Config {
        game_directory: "/games/cp".into(),
        cache_directory: "/c".into(),
        database_path: "/c/db.sqlite".into(),
        nexus_api_key: String::new(),
    };
    let c = Config::new(Some(stored), "/ignored", Some("k".into())).unwrap();
    assert_eq!(c.game_directory, "/games/cp");
    assert_eq!(c.nexus_api_key, "k");

    assert!(matches!(Config::new(None, "/h", Some("   ".into())), Err(AppError::MissingApiKey)));
}

fn config(game: &str, cache: &str, db: &str) -> Config {
    Config {
        game_directory: game.into(),
        cache_directory: cache.into(),
        database_path: db.into(),
        nexus_api_key: "k".into(),
    }
}

#[test]
fn validation_walks_through_every_check() {
    let c = config("/g", "/c", "/c/db.sqlite");
    assert!(matches!(c.validation_start(), Validation::Check(PathCheck::GameExists)));
    assert!(matches!(
        c.validation_step(PathCheck::GameExists, Ok(true)),
        Validation::Check(PathCheck::GameIsDir)
    ));
    assert!(matches!(
        c.validation_step(PathCheck::GameIsDir, Ok(true)),
        Validation::Check(PathCheck::CreateCache)
    ));
    assert!(matches!(
        c.validation_step(PathCheck::CreateCache, Ok(true)),
        Validation::Check(PathCheck::CacheWritable)
    ));
    assert!(matches!(
        c.validation_step(PathCheck::CacheWritable, Ok(true)),
        Validation::Check(PathCheck::PrepareDatabaseDir)
    ));
    assert!(matches!(c.validation_step(PathCheck::PrepareDatabaseDir, Ok(true)), Validation::Valid));
}

#[test]
fn validation_reports_each_failure() {
    match config("rel/game", "/c", "/c/db").validation_start() {
        Validation::Failed(e) => assert_eq!(
            e,
            AppError::Config("game_directory must be absolute: \"rel/game\"".into())
        ),
        other => panic!("unexpected {other:?}"),
    }
    let c = config("/g", "cache", "db");
    match c.validation_step(PathCheck::GameExists, Ok(false)) {
        Validation::Failed(e) => {
            assert_eq!(e, AppError::Config("game_directory does not exist: \"/g\"".into()))
        }
        other => panic!("unexpected {other:?}"),
    }
    match c.validation_step(PathCheck::GameIsDir, Ok(false)) {
        Validation::Failed(e) => assert_eq!(
            e,
            AppError::Config("game_directory is not a directory: \"/g\"".into())
        ),
        other => panic!("unexpected {other:?}"),
    }
    match c.validation_step(PathCheck::GameIsDir, Ok(true)) {
        Validation::Failed(e) => assert_eq!(
            e,
            AppError::Config("cache_directory must be absolute: \"cache\"".into())
        ),
        other => panic!("unexpected {other:?}"),
    }
    match c.validation_step(PathCheck::CacheWritable, Ok(true)) {
        Validation::Failed(e) => {
            assert_eq!(e, AppError::Config("database_path must be absolute: \"db\"".into()))
        }
        other => panic!("unexpected {other:?}"),
    }
    let io = AppError::Io { path: "/c".into(), source: "denied".into() };
    match c.validation_step(PathCheck::CreateCache, Err(io.clone())) {
        Validation::Failed(e) => assert_eq!(e, io),
        other => panic!("unexpected {other:?}"),
    }
    assert_eq!(
        not_writable("/c", "denied"),
        AppError::Config("path \"/c\" is not writable: denied".into())
    );
}
