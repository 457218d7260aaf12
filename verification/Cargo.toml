[package]
name = "rust-seek"
version = "0.1.0"
edition = "2021"
publish = false

[dependencies]
anyhow = "=1.0.104"
arboard = { version = "=3.7.0", default-features = false }
chrono = { version = "=0.4.45", features = ["serde"] }
dirs = "=6.0.0"
eframe = { version = "=0.31.1", default-features = false, features = ["glow", "x11"] }
egui = { version = "=0.31.1", default-features = false }
encoding_rs = "=0.8.44"
ignore = "=0.4.34"
image = { version = "=0.25.10", default-features = false, features = ["png"] }
memmap2 = "=0.9.12"
num_cpus = "=1.17.0"
open = "=5.4.5"
regex = "=1.13.1"
rfd = { version = "=0.15.4", default-features = false, features = ["xdg-portal", "tokio"] }
serde = { version = "=1.0.229", features = ["derive"] }
serde_json = "=1.0.154"
unicode-normalization = "=0.1.26"
