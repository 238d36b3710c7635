[package]
name = "store_gc"
version = "0.1.0"
edition = "2021"
publish = false

[dependencies]
byte-unit = "4"
chrono = { version = "0.4", default-features = false, features = ["now"] }
serde = { version = "1", features = ["derive"] }
serde_json = "1"
