[package]
name = "nanorod"
version = "0.1.0"
edition = "2021"
publish = false

[dependencies]
anyhow = "1.0"
clap = { version = "4", features = ["derive"] }
csv = "1"
cudarc = { version = "0.19", default-features = false, features = ["std", "driver", "nvrtc", "dynamic-loading", "cuda-12020"] }
eframe = { version = "*", default-features = false, features = ["default_fonts", "glow", "x11", "wayland"] }
egui = "*"
rayon = "1"
serde = { version = "1", features = ["derive"] }
serde_json = "1"
toml = "*"
