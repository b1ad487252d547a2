[package]
name = "polaris"
version = "0.1.0"
edition = "2021"
publish = false

[dependencies]
serde_json = "1"
base64 = "0.22"
chrono = { version = "0.4", default-features = false, features = ["clock", "std"] }
eframe = { version = "0.31", default-features = false, features = ["default_fonts", "glow", "x11", "wayland"] }
egui_extras = { version = "0.31", default-features = false, features = ["image"] }
rfd = { version = "0.15", default-features = false, features = ["xdg-portal", "async-std"] }
