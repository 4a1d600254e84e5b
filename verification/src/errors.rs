use vstd::prelude::*;

verus! {

/// Every failure the mod manager reports.
#[derive(Debug, Clone, PartialEq, Eq)]
pub enum AppError {
    Api(String),
    Io { path: String, source: String },
    Db(String),
    Extraction(String),
    Config(String),
    MissingApiKey,
    CircularDependency(String),
    DependencyNotSatisfied(String),
    Conflict(String),
    ZipSlip(String),
    Engine(String),
}

pub type AppResult<T> = Result<T, AppError>;

} // verus!
