[package]
name = "homotopy"
version = "0.1.0"
edition = "2021"
publish = false

[dependencies]
serde = { version = "=1.0.229", features = ["derive"] }
serde_json = "=1.0.154"
thiserror = "=1.0.69"
itertools = "=0.10.5"
rustc-hash = "=1.1.0"
im = "15"
