[package]
name = "strata"
version = "0.1.0"
edition = "2021"
publish = false

[dependencies]
anyhow = "=1.0.104"
axum = "=0.7.9"
bincode = "=1.3.3"
chrono = "=0.4.45"
clap = { version = "=4.6.7", features = ["derive"] }
dirs = "=7.0.0"
git2 = { version = "=0.21.0", default-features = false, features = ["vendored-libgit2", "ssh"] }
globset = "=0.4.21"
indicatif = "=0.17.11"
pprof = { version = "*", features = ["flamegraph"] }
rayon = "=1.12.0"
regex = "=1.13.1"
rmp-serde = "=1.3.1"
rustc-hash = "=2.1.3"
serde = { version = "=1.0.229", features = ["derive"] }
serde_json = "=1.0.154"
sled = "=0.34.7"
tokio = { version = "=1.54.1", features = ["macros", "rt-multi-thread", "net", "fs"] }
tracing = "=0.1.44"
tracing-subscriber = { version = "=0.3.23", features = ["env-filter"] }
