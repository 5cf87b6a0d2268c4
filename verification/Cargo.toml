[package]
name = "getquotes"
version = "0.1.0"
edition = "2021"
publish = false

[dependencies]
anstyle = "1"
fastrand = "2"
simd-normalizer = "*"
chrono = "0.4"
clap = { version = "4", features = ["derive"] }
clap_complete = "4"
cssparser = "*"
cssparser-color = "*"
dirs = "*"
env_logger = "*"
git_rev = "*"
log = "0.4"
rand = "*"
reqwest = { version = "0.12", features = ["json"] }
rusqlite = { version = "*", features = ["bundled"] }
serde = { version = "1", features = ["derive"] }
serde_json = "1"
tokio = { version = "1", features = ["full"] }
toml = "*"
