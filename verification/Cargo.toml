[package]
name = "legion_prof_viewer"
version = "0.1.0"
edition = "2021"
publish = false

[dependencies]
bytes = "1"
ciborium = "0.2"
log = "0.4"
nvtxw = "*"
reqwest = { version = "0.12", default-features = false, features = ["blocking"] }
serde = { version = "1", features = ["derive"] }
url = "2"
web-sys = { version = "0.3", features = ["Location", "Window"] }
zstd = "0.13"
