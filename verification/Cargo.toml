[package]
name = "nexus_mod_manager"
version = "0.1.0"
edition = "2021"
publish = false

[dependencies]
url = "2"
sha2 = "0.10"
hex = "0.4"
serde = { version = "1", features = ["derive"] }
toml = "0.8"
tokio = { version = "1", features = ["rt-multi-thread", "macros", "fs", "sync", "time", "io-util"] }
reqwest = { version = "0.12", default-features = false, features = ["json", "stream", "rustls-tls"] }
sqlx = { version = "0.8", default-features = false, features = ["sqlite", "runtime-tokio", "migrate", "macros"] }
zip = { version = "2", default-features = false, features = ["deflate"] }
sevenz-rust = "0.6"
unrar = "0.5"
chrono = "0.4"
tracing = "0.1"
tracing-subscriber = { version = "0.3", features = ["env-filter", "fmt"] }
async-channel = "2"
futures = "0.3"
thiserror = "1"

[dev-dependencies]
tempfile = "3"
