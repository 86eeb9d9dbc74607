[package]
name = "rua"
version = "0.1.0"
edition = "2021"
publish = false

[dependencies]
config = "0.9"
prettytable-rs = "0.8"
rand = "0.7"
serde = { version = "1", features = ["derive"] }
serde_derive = "1"
