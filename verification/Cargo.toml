[package]
name = "mf4_parse"
version = "0.1.0"
edition = "2021"
publish = false

[dependencies]
byteorder = "1"
chrono = { version = "0.4", default-features = false, features = ["std"] }
evalexpr = "11"
flate2 = "1"
half = "2"
indexmap = "2"
lazy_static = "1"
lru = "0.12"
serde = { version = "1", features = ["derive"] }
toml = { version = "0.8", features = ["preserve_order"] }
