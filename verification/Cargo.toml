[package]
name = "marf_store"
version = "0.1.0"
edition = "2021"
publish = false

[dependencies]
rusqlite = { version = "0.16", features = ["blob", "bundled"] }
serde_json = "1"
mio = "0.6"
