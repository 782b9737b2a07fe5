[package]
name = "libra_twins"
version = "0.1.0"
edition = "2021"
publish = false

[dependencies]
rand = "0.7"
itertools = "0.9"
serde = { version = "1", features = ["derive"] }
