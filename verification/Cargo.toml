[package]
name = "deploy-common"
version = "0.1.0"
edition = "2021"
publish = false

[dependencies]
anyhow = "1"
axum = "0.8"
axum-server = { version = "*", features = ["tls-rustls"] }
clap = { version = "4", features = ["derive"] }
futures-util = "0.3"
hex = "0.4"
hmac = "0.13"
rand = "*"
serde = { version = "1", features = ["derive"] }
sha2 = "0.11"
tar = "0.4"
tempfile = "3"
time = { version = "0.3", features = ["formatting", "parsing", "macros", "serde-well-known"] }
tokio = { version = "1", features = ["full"] }
toml = "*"
tracing = "0.1"
tracing-subscriber = { version = "0.3", features = ["env-filter"] }
ureq = "3"
zbus = { version = "5", default-features = false, features = ["tokio"] }
zstd = "0.13"
