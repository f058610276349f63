[package]
name = "textr"
version = "0.3.0"
edition = "2021"
publish = false

[dependencies]
lopdf = "0.32"
owned_ttf_parser = "0.20"
time = "0.3"
unicode-normalization = "0.1"
anyhow = "1"
serde = { version = "1", features = ["derive"] }
serde_json = "1"
log = "0.4"
