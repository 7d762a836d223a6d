[package]
name = "phonia"
version = "0.1.0"
edition = "2021"
publish = false

[dependencies]
regex = "1"
serde = { version = "1", features = ["derive"] }
serde_json = "1"
hound = "3"
realfft = "3"
rubato = "*"
symphonia = "*"
base64 = "*"
blake3 = "*"
