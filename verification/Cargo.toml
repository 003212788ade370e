[package]
name = "scuisei_rs"
version = "0.1.0"
edition = "2021"
publish = false

[dependencies]
anyhow = "1"
clap = { version = "4", features = ["derive"] }
ffmpeg-next = "*"
pyo3 = "*"
rayon = "1"
thiserror = "2"
wide = "*"
