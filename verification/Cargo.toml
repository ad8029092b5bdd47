[package]
name = "mailarch"
version = "0.1.0"
edition = "2021"
publish = false

[dependencies]
anyhow = "1"
async-imap = { version = "*", default-features = false, features = ["runtime-tokio"] }
chrono = "0.4"
clap = { version = "4", features = ["derive"] }
env_logger = "0.11"
itertools = "*"
log = "0.4"
nix = { version = "*", features = ["fs"] }
redb = "*"
rustls-native-certs = "*"
serde = { version = "1", features = ["derive"] }
sha3 = "*"
tempfile = "3"
tokio = { version = "1", features = ["full"] }
tokio-rustls = "*"
tokio-stream = "0.1"
toml = "*"
