[package]
name = "ragfs_git"
version = "0.1.0"
edition = "2021"
publish = false

[dependencies]
async-trait = "0.1"
aws-sdk-s3 = { version = "1", default-features = false, features = ["rt-tokio", "behavior-version-latest"] }
bytes = "1"
futures = "0.3"
gix-actor = "0.31"
gix-hash = "0.14"
gix-object = "0.42"
ignore = "0.4.25"
pyo3 = { version = "0.26", features = ["abi3-py39", "extension-module"] }
serde = { version = "1", features = ["derive"] }
serde_json = "1"
thiserror = "1"
tokio = { version = "1", features = ["rt-multi-thread"] }
toml = "0.8"
