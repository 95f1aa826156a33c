[package]
name = "reforge"
version = "0.1.0"
edition = "2021"
publish = false

[dependencies]
glob = "=0.3.4"
serde = { version = "=1.0.229", features = ["derive"] }
serde_json = "=1.0.154"
eyre = "=0.6.14"
tracing = "=0.1.44"
foundry-compilers = { version = "=0.21.0", default-features = false }
