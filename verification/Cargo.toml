[package]
name = "launcher"
version = "0.1.0"
edition = "2021"
publish = false

[dependencies]
fuzzy-matcher = "=0.3.7"
shellish_parse = "=2.2.0"
xdir = "=0.1.0"
egui = "0.33"
eframe = { version = "0.33", default-features = false, features = ["glow", "wayland", "x11", "default_fonts"] }
catppuccin-egui = { version = "5.7", default-features = false, features = ["egui33"] }
winit = "0.30"
