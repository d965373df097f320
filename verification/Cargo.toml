[package]
name = "terrace_helm"
version = "0.1.0"
edition = "2021"
publish = false

[dependencies]
saphyr-parser = "*"
serde = { version = "1", features = ["derive"] }
serde_json = "1"
serde_norway = "*"
regex = "1"
sha2 = "*"
flate2 = "1"
tar = "*"
