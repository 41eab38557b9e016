[package]
name = "registry_index"
version = "0.1.0"
edition = "2021"
publish = false

[dependencies]
chrono = "0.4"
db-dump = "*"
reqwest = "*"
semver = "1"
tokio = { version = "1", features = ["macros", "rt-multi-thread"] }
