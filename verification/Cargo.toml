[package]
name = "tchatche"
version = "0.1.0"
edition = "2021"
publish = false

[dependencies]
anyhow = "1"
async-trait = "0.1"
bytestring = { version = "1", features = ["serde"] }
itertools = "0.14"
rand = "0.10"
serde = { version = "1", features = ["derive", "rc"] }
tokio = { version = "1", features = ["macros", "net", "rt", "sync", "time"] }
tokio-stream = { version = "0.1", features = ["sync"] }
tracing = "0.1"
