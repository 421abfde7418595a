[package]
name = "trunkdb"
version = "0.11.0"
edition = "2021"
publish = false

[dependencies]
indexmap = "2"
serde = { version = "1", features = ["derive"] }
serde_json = { version = "1", features = ["preserve_order", "float_roundtrip"] }
thiserror = "2"
uuid = { version = "1", features = ["v7"] }
tempfile = "3"
