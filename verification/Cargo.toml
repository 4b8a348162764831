[package]
name = "bigfile-gui"
version = "0.1.0"
edition = "2021"
publish = false

[dependencies]
eframe = { version = "0.32", default-features = false, features = ["default_fonts", "glow", "wayland", "x11"] }
egui_extras = "0.32"
rfd = "0.15"
