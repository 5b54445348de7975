[package]
name = "embassy_devtool"
version = "0.1.0"
edition = "2021"
publish = false

[dependencies]
anyhow = "1"
cargo-manifest = "*"
clap = { version = "4", features = ["derive"] }
crates-index = { version = "*", default-features = false }
flate2 = "1"
log = "0.4"
reqwest = { version = "0.12", default-features = false, features = ["blocking"] }
semver = "1"
serde = { version = "1", features = ["derive"] }
simple_logger = "5"
tar = "0.4"
toml = "*"
toml_edit = "*"
walkdir = "2"
