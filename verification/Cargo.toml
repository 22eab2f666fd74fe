[package]
name = "license_gen"
version = "0.1.0"
edition = "2021"
publish = false

[dependencies]
anyhow = "1"
base64 = "0.13"
clap = { version = "3.2", features = ["derive"] }
git2 = { version = "0.14", default-features = false }
octocrab = "0.16"
quick-xml = "0.23"
spdx = "0.9"
thiserror = "1"
time = { version = "0.3", features = ["local-offset"] }
tokio = { version = "1", features = ["fs", "io-util", "macros", "rt-multi-thread"] }
