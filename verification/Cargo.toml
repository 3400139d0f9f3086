[package]
name = "clean_core"
version = "0.1.0"
edition = "2021"
publish = false

[dependencies]
blake3 = "1"
clap = { version = "4", features = ["derive"] }
comfy-table = "*"
encoding_rs = "0.8"
globset = "0.4"
indicatif = "*"
rayon = "1"
serde = { version = "1", features = ["derive"] }
serde_json = "1"
thiserror = "*"
trash = "*"
winreg = "*"
