[package]
name = "invariant-path-core"
version = "0.1.0"
edition = "2021"
publish = false

[dependencies]
regex = "1"
time = { version = "0.3", features = ["formatting"] }
serde = { version = "1", features = ["derive"] }
serde_json = "1"
thiserror = "1"
clap = { version = "4", features = ["derive"] }
