[package]
name = "blocknote_rs"
version = "0.1.0"
edition = "2021"
publish = false

[dependencies]
comrak = { version = "0.18", default-features = false }
kuchiki = "0.8.1"
markup5ever = "0.10"
serde = { version = "1", features = ["derive"] }
serde_json = "1"
