//! Configuration: where the game, the cache and the database live, and the
//! Nexus API key. The program reads the environment and the configuration
//! file; this module decides what they amount to and which path checks come
//! next.

use vstd::prelude::*;
use vstd::string::*;

use crate::errors::AppError;
use crate::paths::{debug_path, is_absolute_path, joined, join_path, path_debug_text, path_is_absolute};
use crate::text::{is_blank, str_is_blank};

verus! {

/// Application configuration. The API key comes from `NEXUS_API_KEY` alone and
/// is never written to the configuration file.
#[derive(Debug, Clone)]
pub struct Config {
    pub game_directory: String,
    pub cache_directory: String,
    pub database_path: String,
    pub nexus_api_key: String,
}

/// The text of an error about `what`: the message, then the path as `{:?}` prints it.
pub open spec fn path_error_text(what: Seq<char>, path: Seq<char>) -> Seq<char> {
    what + path_debug_text(path)
}

pub open spec fn config_error_is(e: AppError, text: Seq<char>) -> bool {
    e matches AppError::Config(m) && m@ == text
}

fn path_error(what: &str, path: &String) -> (e: AppError)
    ensures
        config_error_is(e, path_error_text(what@, path@)),
{
    let mut m = String::from_str(what);
    let shown = debug_path(path.as_str());
    m.append(shown.as_str());
    AppError::Config(m)
}

/// The base directory an XDG variable names: its value when set and not empty,
/// else `$HOME` joined with `fallback_suffix`; an error when neither is set.
/// `env_value` and `home` are what the environment holds for the variable and
/// for `HOME` (`None` when unset or not Unicode).
pub fn xdg_path(env_value: Option<String>, home: Option<String>, env_var: &str, fallback_suffix: &str)
    -> (r: Result<String, AppError>)
    ensures
        match env_value {
            Some(v) if v@.len() > 0 => r matches Ok(p) && p@ == v@,
            _ => match home {
                Some(h) => r matches Ok(p) && p@ == joined(h@, fallback_suffix@),
                None => r matches Err(e) && config_error_is(
                    e,
                    env_var@ + " not set and HOME not set either"@,
                ),
            },
        },
{
    match env_value {
        Some(v) if !v.as_str().is_empty() => {
            return Ok(v);
        },
        _ => {},
    }
    match home {
        Some(h) => Ok(join_path(h.as_str(), fallback_suffix)),
        None => {
            let mut m = String::from_str(env_var);
            m.append(" not set and HOME not set either");
            Err(AppError::Config(m))
        },
    }
}

/// The directory that holds the configuration file, under `config_home`.
pub open spec fn config_dir_of(config_home: Seq<char>) -> Seq<char> {
    joined(config_home, "cp2077-manager"@)
}

/// The configuration directory and file under `config_home`:
/// `<config_home>/cp2077-manager` and `<config_home>/cp2077-manager/config.toml`.
pub fn config_file_paths(config_home: &str) -> (r: (String, String))
    ensures
        r.0@ == config_dir_of(config_home@),
        r.1@ == joined(config_dir_of(config_home@), "config.toml"@),
{
    let dir = join_path(config_home, "cp2077-manager");
    let file = join_path(dir.as_str(), "config.toml");
    (dir, file)
}

/// The key `NEXUS_API_KEY` holds: missing when unset or only whitespace.
pub fn api_key_from_env(value: Option<String>) -> (r: Result<String, AppError>)
    ensures
        match value {
            Some(k) => if is_blank(k@) {
                r == Err::<String, AppError>(AppError::MissingApiKey)
            } else {
                r matches Ok(v) && v@ == k@
            },
            None => r == Err::<String, AppError>(AppError::MissingApiKey),
        },
{
    match value {
        None => Err(AppError::MissingApiKey),
        Some(k) => {
            if str_is_blank(k.as_str()) {
                Err(AppError::MissingApiKey)
            } else {
                Ok(k)
            }
        },
    }
}

/// Which filesystem check the program makes next.
#[derive(Debug, Clone, Copy, PartialEq, Eq)]
pub enum PathCheck {
    /// Does the game directory exist?
    GameExists,
    /// Is the game directory a directory?
    GameIsDir,
    /// Create the cache directory if it is missing.
    CreateCache,
    /// Can a file be written in the cache directory?
    CacheWritable,
    /// Create the database's directory and check that it is writable.
    PrepareDatabaseDir,
}

/// Where path validation stands.
#[derive(Debug, Clone)]
pub enum Validation {
    Check(PathCheck),
    Failed(AppError),
    Valid,
}

impl Config {
    /// The configuration written when none exists yet: the game under
    /// `/tmp/cp2077-game`, cache and database under `<cache_home>/cp2077-manager`.
    pub fn default_in(cache_home: &str) -> (c: Config)
        ensures
            c.game_directory@ == "/tmp/cp2077-game"@,
            c.cache_directory@ == joined(cache_home@, "cp2077-manager"@),
            c.database_path@ == joined(joined(cache_home@, "cp2077-manager"@), "db.sqlite"@),
            c.nexus_api_key@ == Seq::<char>::empty(),
    {
        let cache = join_path(cache_home, "cp2077-manager");
        let db = join_path(cache.as_str(), "db.sqlite");
        Config {
            game_directory: String::from_str("/tmp/cp2077-game"),
            cache_directory: cache,
            database_path: db,
            nexus_api_key: String::new(),
        }
    }

    /// The configuration from what the program read: `stored` is the parsed
    /// configuration file (`None` when there was none, and the default under
    /// `cache_home` is used), `api_key` what `NEXUS_API_KEY` holds. Fails with
    /// `MissingApiKey` when the key is unset or blank; the paths are checked
    /// afterwards, by `validation_start` and `validation_step`.
    pub fn new(stored: Option<Config>, cache_home: &str, api_key: Option<String>) -> (r: Result<Config, AppError>)
        ensures
            match api_key {
                Some(k) if !is_blank(k@) => r matches Ok(c) && c.nexus_api_key@ == k@ && match stored {
                    Some(s) => c.game_directory == s.game_directory && c.cache_directory
                        == s.cache_directory && c.database_path == s.database_path,
                    None => c.game_directory@ == "/tmp/cp2077-game"@ && c.cache_directory@ == joined(
                        cache_home@,
                        "cp2077-manager"@,
                    ) && c.database_path@ == joined(joined(cache_home@, "cp2077-manager"@), "db.sqlite"@),
                },
                _ => r == Err::<Config, AppError>(AppError::MissingApiKey),
            },
    {
        let base = match stored {
            Some(s) => s,
            None => Config::default_in(cache_home),
        };
        let key = match api_key_from_env(api_key) {
            Ok(k) => k,
            Err(e) => {
                return Err(e);
            },
        };
        Ok(Config { nexus_api_key: key, ..base })
    }

    /// The first step of path validation: the game directory must be absolute.
    pub fn validation_start(&self) -> (v: Validation)
        ensures
            if is_absolute_path(self.game_directory@) {
                v matches Validation::Check(PathCheck::GameExists)
            } else {
                v matches Validation::Failed(e) && config_error_is(
                    e,
                    path_error_text("game_directory must be absolute: "@, self.game_directory@),
                )
            },
    {
        if path_is_absolute(self.game_directory.as_str()) {
            Validation::Check(PathCheck::GameExists)
        } else {
            Validation::Failed(path_error("game_directory must be absolute: ", &self.game_directory))
        }
    }

    /// The step after `done` gave `outcome`: `Ok(b)` for a check's answer
    /// (`true` once a directory was created or found writable), `Err` for a
    /// failure of the filesystem, which validation reports as it is.
    pub fn validation_step(&self, done: PathCheck, outcome: Result<bool, AppError>) -> (v: Validation)
        ensures
            match outcome {
                Err(e) => v matches Validation::Failed(f) && f == e,
                Ok(b) => match done {
                    PathCheck::GameExists => if b {
                        v matches Validation::Check(PathCheck::GameIsDir)
                    } else {
                        v matches Validation::Failed(e) && config_error_is(
                            e,
                            path_error_text("game_directory does not exist: "@, self.game_directory@),
                        )
                    },
                    PathCheck::GameIsDir => if !b {
                        v matches Validation::Failed(e) && config_error_is(
                            e,
                            path_error_text("game_directory is not a directory: "@, self.game_directory@),
                        )
                    } else if is_absolute_path(self.cache_directory@) {
                        v matches Validation::Check(PathCheck::CreateCache)
                    } else {
                        v matches Validation::Failed(e) && config_error_is(
                            e,
                            path_error_text("cache_directory must be absolute: "@, self.cache_directory@),
                        )
                    },
                    PathCheck::CreateCache => v matches Validation::Check(PathCheck::CacheWritable),
                    PathCheck::CacheWritable => if is_absolute_path(self.database_path@) {
                        v matches Validation::Check(PathCheck::PrepareDatabaseDir)
                    } else {
                        v matches Validation::Failed(e) && config_error_is(
                            e,
                            path_error_text("database_path must be absolute: "@, self.database_path@),
                        )
                    },
                    PathCheck::PrepareDatabaseDir => v matches Validation::Valid,
                },
            },
    {
        let b = match outcome {
            Err(e) => {
                return Validation::Failed(e);
            },
            Ok(b) => b,
        };
        match done {
            PathCheck::GameExists => {
                if b {
                    Validation::Check(PathCheck::GameIsDir)
                } else {
                    Validation::Failed(path_error("game_directory does not exist: ", &self.game_directory))
                }
            },
            PathCheck::GameIsDir => {
                if !b {
                    Validation::Failed(path_error("game_directory is not a directory: ", &self.game_directory))
                } else if path_is_absolute(self.cache_directory.as_str()) {
                    Validation::Check(PathCheck::CreateCache)
                } else {
                    Validation::Failed(path_error("cache_directory must be absolute: ", &self.cache_directory))
                }
            },
            PathCheck::CreateCache => Validation::Check(PathCheck::CacheWritable),
            PathCheck::CacheWritable => {
                if path_is_absolute(self.database_path.as_str()) {
                    Validation::Check(PathCheck::PrepareDatabaseDir)
                } else {
                    Validation::Failed(path_error("database_path must be absolute: ", &self.database_path))
                }
            },
            PathCheck::PrepareDatabaseDir => Validation::Valid,
        }
    }
}

/// The error for a directory in which no file could be written; `detail` is
/// what the filesystem said.
pub fn not_writable(path: &str, detail: &str) -> (e: AppError)
    ensures
        config_error_is(e, "path "@ + path_debug_text(path@) + " is not writable: "@ + detail@),
{
    let mut m = String::from_str("path ");
    let shown = debug_path(path);
    m.append(shown.as_str());
    m.append(" is not writable: ");
    m.append(detail);
    AppError::Config(m)
}

} // verus!
