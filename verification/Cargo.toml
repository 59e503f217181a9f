[package]
name = "loro_internal"
version = "0.1.0"
edition = "2021"
publish = false

[dependencies]
leb128 = "0.2"
fxhash = "0.2"
serde = { version = "1", features = ["derive"] }
serde_json = "1"
