[package]
name = "probe_runner"
version = "0.1.0"
edition = "2021"
publish = false

[dependencies]
csv = "1"
futures = "0.3"
tokio = { version = "1", features = ["macros", "rt-multi-thread", "sync"] }
