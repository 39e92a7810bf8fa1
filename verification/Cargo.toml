[package]
name = "vokabulatr"
version = "0.1.0"
edition = "2021"
publish = false

[dependencies]
csv = "1"
deunicode = "1"
rand = "0.9"
serde = { version = "1", features = ["derive"] }
