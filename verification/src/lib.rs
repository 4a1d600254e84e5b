//! Verified core of a Cyberpunk 2077 mod manager: dependency resolution and load
//! ordering, `nxm://` link parsing, path planning for extraction and deployment,
//! configuration checks and the small text formats the manager speaks.

pub mod api;
pub mod errors;
pub mod load_order;
pub mod db;
pub mod dependency;
pub mod text;
pub mod logging;
pub mod paths;
pub mod config;
pub mod engine;
pub mod views;
