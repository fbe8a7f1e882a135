[package]
name = "glide-core"
version = "0.1.0"
edition = "2021"
publish = false

[dependencies]
bytes = "1"
nanoid = "0.4"
once_cell = "1"
sha1_smol = "1"
tokio = { version = "1", features = ["rt", "sync"] }
