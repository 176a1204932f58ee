[package]
name = "adblock-rust-compat"
version = "0.1.0"
edition = "2021"
publish = false

[dependencies]
adblock = { version = "=0.12.5", features = ["css-validation"] }
regex = "=1.13.1"
serde = { version = "1", features = ["derive"] }
serde_json = "1"
ureq = "=2.12.1"
