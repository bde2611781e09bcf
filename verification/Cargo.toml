[package]
name = "rbspy"
version = "0.1.0"
edition = "2021"
publish = false

[dependencies]
anyhow = "1"
chrono = "0.4"
clap = { version = "4", features = ["cargo"] }
ctrlc = "3"
directories = "5"
env_logger = "0.11"
flate2 = "1"
inferno = { version = "0.11", default-features = false }
log = "0.4"
prost = "0.12"
rand = "0.8"
semver = "1"
serde = { version = "1", features = ["derive"] }
serde_json = "1"
term_size = "0.3"
thiserror = "1"
