[package]
name = "motosan_sandbox"
version = "0.1.0"
edition = "2021"
publish = false

[dependencies]
globset = "0.4"
landlock = "0.4"
libc = "0.2"
seccompiler = "0.4"
serde = { version = "1", features = ["derive"] }
serde_json = "1"
tempfile = "3"
thiserror = "1"
tokio = { version = "1", features = ["fs", "io-util", "macros", "net", "process", "rt", "rt-multi-thread", "sync", "time"] }
tokio-util = "0.7"
tracing = "0.1"
walkdir = "2"
