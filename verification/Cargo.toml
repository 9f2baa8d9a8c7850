[package]
name = "parity_ethcore"
version = "0.1.0"
edition = "2021"
publish = false

[dependencies]
rustc-serialize = "=0.3.25"
docopt = "=1.1.1"
serde = { version = "=1.0.229", features = ["derive"] }
