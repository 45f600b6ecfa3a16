[package]
name = "pagedb"
version = "0.1.0"
edition = "2021"
publish = false

[dependencies]
bytes = "1"
nix = { version = "*", features = ["uio"] }
tokio = { version = "1", features = ["fs", "rt"] }
