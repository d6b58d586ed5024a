[package]
name = "rgathing"
version = "0.1.0"
edition = "2021"
publish = false

[dependencies]
dirs = "6"
eframe = { version = "0.31", default-features = false, features = ["default_fonts", "glow", "x11"] }
egui = "0.31"
open = "5"
rfd = "0.15"
serde = { version = "1", features = ["derive"] }
serde_json = "1"
