[package]
name = "patchquilt"
version = "0.1.0"
edition = "2021"
publish = false

[dependencies]
serde = { version = "1", features = ["derive"] }
serde_json = "1"
regex = "1"
zip = { version = "2", default-features = false, features = ["deflate"] }
libc = "0.2"
tracing = "0.1"
