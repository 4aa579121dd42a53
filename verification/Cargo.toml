[package]
name = "blf_decoder"
version = "0.1.0"
edition = "2021"
publish = false

[dependencies]
anyhow = "1"
flate2 = "1"
ryu = "1"
serde = { version = "1", features = ["derive"] }
serde_json = "1"
parquet = { version = "*", default-features = false, features = ["snap"] }
eframe = { version = "*", default-features = false, features = ["default_fonts", "glow", "wayland", "x11"] }
rfd = "*"
