[package]
name = "egglog-backends"
version = "0.1.0"
edition = "2021"
publish = false

[dependencies]
anyhow = "1"
duckdb = { version = "1", default-features = false, features = ["vscalar"] }
hashbrown = "0.15"
num = "0.4"
