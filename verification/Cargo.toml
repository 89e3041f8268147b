[package]
name = "usfm_core"
version = "0.1.0"
edition = "2021"
publish = false

[dependencies]
blake3 = "*"
unicode-segmentation = "*"
unicode-normalization = "*"
serde = { version = "*", features = ["derive"] }
serde_json = "*"
clap = { version = "*", features = ["derive"] }
usfm3 = "*"
