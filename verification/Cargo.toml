[package]
name = "file_snapshots"
version = "0.1.0"
edition = "2021"
publish = false

[dependencies]
sha2 = "0.10"
ignore = "0.4"
gix = { version = "*", default-features = false, features = ["index", "sha1"] }
serde = { version = "1", features = ["derive"] }
serde_json = "1"
tracing = "0.1"
color-eyre = "0.6"
